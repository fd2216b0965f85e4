//! Rules that predict the class of an example from the value of one attribute.

use crate::accuracy::Accuracy;
use crate::dataset::Dataset;
use crate::iter::{
    first_position, first_seen, keys, lemma_first_position, majority, most_frequent,
};
use crate::order::{greater, keeps_order, lemma_greater_accuracy};
use itertools::Itertools;
use vstd::prelude::*;

verus! {

/// The class that a rule predicts for one value of its attribute.
#[derive(Debug, PartialEq, Eq, Hash)]
pub struct Case {
    pub attribute_value: String,
    pub predicted_class: String,
}

impl Clone for Case {
    fn clone(&self) -> (copy: Self)
        ensures
            copy == *self,
    {
        Case {
            attribute_value: self.attribute_value.clone(),
            predicted_class: self.predicted_class.clone(),
        }
    }
}

/// A rule on one attribute: a class for each value that the attribute takes.
#[derive(Debug, PartialEq, Eq, Hash)]
pub struct Rule {
    pub attribute_index: usize,
    pub cases: Vec<Case>,
}

/// The cases as pairs of an attribute value and the class predicted for it.
pub open spec fn case_views(cases: Seq<Case>) -> Seq<(Seq<char>, Seq<char>)> {
    Seq::new(cases.len(), |i: int| (cases[i].attribute_value@, cases[i].predicted_class@))
}

/// The attribute values of the cases, in their order.
pub open spec fn case_values(cases: Seq<(Seq<char>, Seq<char>)>) -> Seq<Seq<char>> {
    Seq::new(cases.len(), |i: int| cases[i].0)
}

/// The class that the cases predict for `value`: that of the first case for
/// the value, and none where no case is for it.
pub open spec fn predicted(cases: Seq<(Seq<char>, Seq<char>)>, value: Seq<char>) -> Option<
    Seq<char>,
> {
    if case_values(cases).contains(value) {
        Some(cases[first_position(case_values(cases), value)].1)
    } else {
        None
    }
}

/// How many of the first `n` examples the cases predict correctly. An example
/// for which they predict no class is not predicted correctly.
pub open spec fn correct_below(
    cases: Seq<(Seq<char>, Seq<char>)>,
    values: Seq<Seq<char>>,
    classes: Seq<Seq<char>>,
    n: int,
) -> nat
    decreases n,
{
    if n <= 0 {
        0
    } else {
        correct_below(cases, values, classes, n - 1) + if predicted(cases, values[n - 1]) == Some(
            classes[n - 1],
        ) {
            1nat
        } else {
            0nat
        }
    }
}

/// No more examples are predicted correctly than there are.
pub proof fn lemma_correct_below_bound(
    cases: Seq<(Seq<char>, Seq<char>)>,
    values: Seq<Seq<char>>,
    classes: Seq<Seq<char>>,
    n: int,
)
    requires
        0 <= n,
    ensures
        correct_below(cases, values, classes, n) <= n,
    decreases n,
{
    if n > 0 {
        lemma_correct_below_bound(cases, values, classes, n - 1);
    }
}

/// Something that predicts the class of an example from its attribute values.
pub trait Interpreter {
    /// Whether the example has the attribute values that the prediction needs.
    spec fn reads(&self, example: Seq<String>) -> bool;

    /// The class predicted for the example, if there is one.
    spec fn prediction(&self, example: Seq<String>) -> Option<Seq<char>>;

    fn apply(&self, example: &Vec<String>) -> (class: Option<String>)
        requires
            self.reads(example@),
        ensures
            match class {
                Some(class) => self.prediction(example@) == Some(class@),
                None => self.prediction(example@) is None,
            },
    ;
}

/// Looks up the class that the cases predict for a value.
pub fn interpret<'a>(cases: &'a Vec<Case>, attribute_value: &String) -> (class: Option<&'a String>)
    ensures
        match class {
            Some(class) => predicted(case_views(cases@), attribute_value@) == Some(class@),
            None => predicted(case_views(cases@), attribute_value@) is None,
        },
{
    let ghost values = case_values(case_views(cases@));
    let mut i: usize = 0;
    while i < cases.len()
        invariant
            i <= cases.len(),
            values == case_values(case_views(cases@)),
            forall|j: int| 0 <= j < i ==> values[j] != attribute_value@,
        decreases cases.len() - i,
    {
        if cases[i].attribute_value == *attribute_value {
            proof {
                assert(values[i as int] == attribute_value@);
                lemma_first_position(values, attribute_value@);
            }
            return Some(&cases[i].predicted_class);
        }
        i = i + 1;
    }
    None
}

impl Interpreter for Rule {
    open spec fn reads(&self, example: Seq<String>) -> bool {
        self.attribute_index < example.len()
    }

    open spec fn prediction(&self, example: Seq<String>) -> Option<Seq<char>> {
        predicted(case_views(self.cases@), example[self.attribute_index as int]@)
    }

    fn apply(&self, example: &Vec<String>) -> (class: Option<String>) {
        match interpret(&self.cases, &example[self.attribute_index]) {
            Some(class) => Some(class.clone()),
            None => None,
        }
    }
}

/// Holds the cases against examples given by the values of the attribute and
/// by their classes.
pub fn score(cases: &Vec<Case>, values: &Vec<String>, classes: &Vec<String>) -> (accuracy: Accuracy)
    requires
        values.len() == classes.len(),
    ensures
        accuracy.total == values.len(),
        accuracy.correct == correct_below(
            case_views(cases@),
            keys(values@),
            keys(classes@),
            values.len() as int,
        ),
{
    let mut correct: usize = 0;
    let mut i: usize = 0;
    while i < values.len()
        invariant
            i <= values.len(),
            values.len() == classes.len(),
            correct <= i,
            correct == correct_below(case_views(cases@), keys(values@), keys(classes@), i as int),
        decreases values.len() - i,
    {
        let right = match interpret(cases, &values[i]) {
            Some(class) => *class == classes[i],
            None => false,
        };
        if right {
            correct = correct + 1;
        }
        i = i + 1;
    }
    Accuracy { correct, total: values.len() }
}

/// The accuracy of cases for attribute `a` on a dataset.
pub open spec fn accuracy_of(cases: Seq<Case>, a: int, dataset: Dataset) -> Accuracy {
    Accuracy {
        correct: correct_below(
            case_views(cases),
            keys(dataset.column(a)),
            keys(dataset.labels()),
            dataset.rows().len() as int,
        ) as usize,
        total: dataset.rows().len() as usize,
    }
}

/// The share of the examples of the dataset whose class the rule predicts.
/// An example for which the rule predicts no class counts as a wrong
/// prediction. With no example the accuracy is zero, whatever the rule.
pub fn evaluate(rule: &Rule, dataset: &Dataset) -> (accuracy: Accuracy)
    requires
        dataset.wf(),
        dataset.rows().len() > 0 ==> rule.attribute_index < dataset.width(),
    ensures
        accuracy == accuracy_of(rule.cases@, rule.attribute_index as int, *dataset),
        accuracy.correct <= accuracy.total,
        dataset.rows().len() == 0 ==> accuracy.correct == 0 && accuracy.total == 0,
{
    if dataset.attributes.nrows() == 0 {
        return Accuracy { correct: 0, total: 0 };
    }
    let values = dataset.attributes.column(rule.attribute_index);
    let classes = dataset.classes.to_vec();
    proof {
        assert(values@ =~= dataset.column(rule.attribute_index as int));
        lemma_correct_below_bound(
            case_views(rule.cases@),
            keys(values@),
            keys(classes@),
            values.len() as int,
        );
    }
    score(&rule.cases, &values, &classes)
}

/// The classes of those of the first `n` examples whose attribute has the
/// value `value`, in the order of the examples.
pub open spec fn classes_where(
    values: Seq<Seq<char>>,
    classes: Seq<Seq<char>>,
    value: Seq<char>,
    n: int,
) -> Seq<Seq<char>>
    decreases n,
{
    if n <= 0 {
        Seq::empty()
    } else if values[n - 1] == value {
        classes_where(values, classes, value, n - 1).push(classes[n - 1])
    } else {
        classes_where(values, classes, value, n - 1)
    }
}

/// The cases learnt from examples: one for each distinct value of the
/// attribute, in the order of first appearance, with the class that most of
/// the examples with that value have. Of several classes with equally many
/// examples, the one that comes first among these examples is taken.
pub open spec fn cases_for(values: Seq<Seq<char>>, classes: Seq<Seq<char>>) -> Seq<
    (Seq<char>, Seq<char>),
> {
    Seq::new(
        first_seen(values).len(),
        |i: int|
            (
                first_seen(values)[i],
                majority(classes_where(values, classes, first_seen(values)[i], values.len() as int)),
            ),
    )
}

/// `unique` of the crate itertools: the values without repetitions, each at
/// the place of its first appearance.
#[verifier::external_body]
fn distinct_column_values(values: &Vec<String>) -> (distinct: Vec<String>)
    ensures
        keys(distinct@) == first_seen(keys(values@)),
{
    values.iter().unique().cloned().collect()
}

/// The class of most of the examples whose attribute has the value `value`.
fn most_frequent_class(values: &Vec<String>, classes: &Vec<String>, value: &String) -> (class:
    Option<String>)
    requires
        values.len() == classes.len(),
    ensures
        class is Some <==> keys(values@).contains(value@),
        class matches Some(class) ==> class@ == majority(
            classes_where(keys(values@), keys(classes@), value@, values.len() as int),
        ),
{
    let mut selected: Vec<&String> = Vec::new();
    let mut i: usize = 0;
    while i < values.len()
        invariant
            i <= values.len(),
            values.len() == classes.len(),
            keys(selected@) == classes_where(keys(values@), keys(classes@), value@, i as int),
            selected.len() > 0 <==> exists|j: int| 0 <= j < i && values[j]@ == value@,
        decreases values.len() - i,
    {
        if values[i] == *value {
            proof {
                assert(keys(selected@).push(classes[i as int]@) =~= keys(
                    selected@.push(&classes[i as int]),
                ));
            }
            selected.push(&classes[i]);
        }
        i = i + 1;
    }
    proof {
        if keys(values@).contains(value@) {
            let j = choose|j: int| 0 <= j < values.len() && keys(values@)[j] == value@;
            assert(values[j]@ == value@);
        }
        if selected.len() > 0 {
            let j = choose|j: int| 0 <= j < values.len() && values[j]@ == value@;
            assert(keys(values@)[j] == value@);
        }
    }
    match most_frequent(selected.as_slice()) {
        Some(class) => Some((*class).clone()),
        None => None,
    }
}

/// Learns the rule on one attribute from the examples of the dataset. Without
/// examples the rule has no case.
pub fn generate_rule_for_attribute(dataset: &Dataset, attribute_index: usize) -> (rule: Rule)
    requires
        dataset.wf(),
        dataset.rows().len() > 0 ==> attribute_index < dataset.width(),
    ensures
        rule.attribute_index == attribute_index,
        case_views(rule.cases@) == cases_for(
            keys(dataset.column(attribute_index as int)),
            keys(dataset.labels()),
        ),
{
    if dataset.attributes.nrows() == 0 {
        let cases: Vec<Case> = Vec::new();
        assert(case_views(cases@) =~= cases_for(
            keys(dataset.column(attribute_index as int)),
            keys(dataset.labels()),
        ));
        return Rule { attribute_index, cases };
    }
    let values = dataset.attributes.column(attribute_index);
    let classes = dataset.classes.to_vec();
    let distinct = distinct_column_values(&values);
    let ghost column = keys(dataset.column(attribute_index as int));
    let ghost labels = keys(dataset.labels());
    proof {
        assert(values@ =~= dataset.column(attribute_index as int));
    }
    let mut cases: Vec<Case> = Vec::new();
    let mut i: usize = 0;
    while i < distinct.len()
        invariant
            i <= distinct.len(),
            values.len() == classes.len(),
            keys(values@) == column,
            keys(classes@) == labels,
            keys(distinct@) == first_seen(column),
            cases.len() == i,
            forall|j: int| 0 <= j < i ==> (#[trigger] case_views(cases@)[j]) == cases_for(
                column,
                labels,
            )[j],
        decreases distinct.len() - i,
    {
        let value = &distinct[i];
        proof {
            assert(keys(distinct@)[i as int] == value@);
            assert(first_seen(column).contains(value@));
            crate::iter::lemma_first_seen_contains(column, value@);
        }
        let ghost before = cases@;
        match most_frequent_class(&values, &classes, value) {
            Some(class) => {
                cases.push(Case { attribute_value: value.clone(), predicted_class: class });
            },
            None => {},
        }
        proof {
            assert forall|j: int| 0 <= j < i + 1 implies (#[trigger] case_views(cases@)[j])
                == cases_for(column, labels)[j] by {
                if j < i {
                    assert(case_views(before)[j] == cases_for(column, labels)[j]);
                }
            }
        }
        i = i + 1;
    }
    assert(case_views(cases@) =~= cases_for(column, labels));
    Rule { attribute_index, cases }
}

/// Learns one rule for each attribute of the dataset.
pub fn generate_hypotheses(dataset: &Dataset) -> (rules: Vec<Rule>)
    requires
        dataset.wf(),
    ensures
        rules.len() == dataset.width(),
        forall|a: int|
            0 <= a < rules.len() ==> {
                &&& (#[trigger] rules[a]).attribute_index == a
                &&& case_views(rules[a].cases@) == cases_for(
                    keys(dataset.column(a)),
                    keys(dataset.labels()),
                )
            },
{
    let width = dataset.attributes.ncols();
    let mut rules: Vec<Rule> = Vec::new();
    let mut a: usize = 0;
    while a < width
        invariant
            a <= width,
            width == dataset.width(),
            dataset.wf(),
            rules.len() == a,
            forall|b: int|
                0 <= b < a ==> {
                    &&& (#[trigger] rules[b]).attribute_index == b
                    &&& case_views(rules[b].cases@) == cases_for(
                        keys(dataset.column(b)),
                        keys(dataset.labels()),
                    )
                },
        decreases width - a,
    {
        let rule = generate_rule_for_attribute(dataset, a);
        rules.push(rule);
        a = a + 1;
    }
    rules
}

/// The place of the value that a pass from the first to the `n`th value ends
/// with, where the pass goes on to a value whenever it is greater than the
/// value it has.
pub open spec fn largest_below<V: PartialOrd>(vs: Seq<V>, n: int) -> int
    decreases n,
{
    if n <= 1 {
        0
    } else if greater(vs[n - 1], vs[largest_below(vs, n - 1)]) {
        n - 1
    } else {
        largest_below(vs, n - 1)
    }
}

/// The place of the largest value: of several largest values, the first.
pub fn index_of_largest_value<V: PartialOrd>(vs: &[V]) -> (best: Option<usize>)
    requires
        keeps_order::<V>(),
    ensures
        best is None <==> vs.len() == 0,
        best matches Some(i) ==> i == largest_below(vs@, vs.len() as int) && i < vs.len(),
{
    if vs.len() == 0 {
        return None;
    }
    let mut best: usize = 0;
    let mut i: usize = 1;
    while i < vs.len()
        invariant
            1 <= i <= vs.len(),
            best < i,
            best == largest_below(vs@, i as int),
            keeps_order::<V>(),
        decreases vs.len() - i,
    {
        if vs[i] > vs[best] {
            best = i;
        }
        i = i + 1;
    }
    Some(best)
}

/// Among accuracies over one number of examples, the pass ends at the first
/// of those with the most correct predictions.
pub proof fn lemma_largest_accuracy(vs: Seq<Accuracy>, n: int)
    requires
        0 < n <= vs.len(),
        forall|i: int| 0 <= i < n ==> (#[trigger] vs[i]).total == vs[0].total,
        vs[0].total > 0,
    ensures
        0 <= largest_below(vs, n) < n,
        forall|i: int| 0 <= i < n ==> (#[trigger] vs[i]).correct <= vs[largest_below(vs, n)].correct,
        forall|i: int|
            0 <= i < largest_below(vs, n) ==> (#[trigger] vs[i]).correct < vs[largest_below(
                vs,
                n,
            )].correct,
    decreases n,
{
    if n > 1 {
        lemma_largest_accuracy(vs, n - 1);
        let before = largest_below(vs, n - 1);
        lemma_greater_accuracy(vs[n - 1], vs[before]);
        let t = vs[0].total as int;
        let a = vs[n - 1].correct as int;
        let b = vs[before].correct as int;
        assert(vs[n - 1].total == t);
        assert(vs[before].total == t);
        assert((a * t > b * t) <==> a > b) by (nonlinear_arith)
            requires
                t > 0,
        ;
    }
}

/// How many examples of the dataset the rule learnt on attribute `a` predicts
/// correctly.
pub open spec fn training_correct(dataset: Dataset, a: int) -> nat {
    correct_below(
        cases_for(keys(dataset.column(a)), keys(dataset.labels())),
        keys(dataset.column(a)),
        keys(dataset.labels()),
        dataset.rows().len() as int,
    )
}

/// Whether the rule is the one learnt on the attribute, the accuracy is that
/// of the rule on the dataset, no rule learnt on another attribute predicts
/// more examples of the dataset correctly, and no rule on an earlier
/// attribute as many.
pub open spec fn is_best_rule(
    dataset: Dataset,
    attribute_index: usize,
    rule: Rule,
    accuracy: Accuracy,
) -> bool {
    &&& attribute_index < dataset.width()
    &&& rule.attribute_index == attribute_index
    &&& case_views(rule.cases@) == cases_for(
        keys(dataset.column(attribute_index as int)),
        keys(dataset.labels()),
    )
    &&& accuracy == accuracy_of(rule.cases@, attribute_index as int, dataset)
    &&& accuracy.correct == training_correct(dataset, attribute_index as int)
    &&& forall|a: int|
        0 <= a < dataset.width() ==> #[trigger] training_correct(dataset, a) <= accuracy.correct
    &&& forall|a: int|
        0 <= a < attribute_index ==> #[trigger] training_correct(dataset, a) < accuracy.correct
}

/// Learns a rule for each attribute and picks the one that predicts most of
/// the examples of the dataset correctly; of several such rules, the one on
/// the first attribute. The result is the attribute, its rule and the
/// accuracy of the rule on the dataset. There is none for a dataset without
/// attributes or without examples.
pub fn discover(dataset: &Dataset) -> (found: Option<(usize, Rule, Accuracy)>)
    requires
        dataset.wf(),
    ensures
        found is None <==> dataset.rows().len() == 0 || dataset.width() == 0,
        found matches Some((attribute_index, rule, accuracy)) ==> is_best_rule(
            *dataset,
            attribute_index,
            rule,
            accuracy,
        ),
{
    if dataset.attributes.nrows() == 0 || dataset.attributes.ncols() == 0 {
        return None;
    }
    let mut rules = generate_hypotheses(dataset);
    let mut scores: Vec<Accuracy> = Vec::new();
    let mut a: usize = 0;
    while a < rules.len()
        invariant
            a <= rules.len(),
            dataset.wf(),
            rules.len() == dataset.width(),
            dataset.rows().len() <= usize::MAX,
            scores.len() == a,
            forall|b: int|
                0 <= b < rules.len() ==> {
                    &&& (#[trigger] rules[b]).attribute_index == b
                    &&& case_views(rules[b].cases@) == cases_for(
                        keys(dataset.column(b)),
                        keys(dataset.labels()),
                    )
                },
            forall|b: int|
                0 <= b < a ==> {
                    &&& (#[trigger] scores[b]) == accuracy_of(rules[b].cases@, b, *dataset)
                    &&& scores[b].correct == training_correct(*dataset, b)
                    &&& scores[b].total == dataset.rows().len()
                },
        decreases rules.len() - a,
    {
        let accuracy = evaluate(&rules[a], dataset);
        proof {
            assert(rules[a as int].attribute_index == a);
            lemma_correct_below_bound(
                case_views(rules[a as int].cases@),
                keys(dataset.column(a as int)),
                keys(dataset.labels()),
                dataset.rows().len() as int,
            );
        }
        scores.push(accuracy);
        a = a + 1;
    }
    proof {
        lemma_greater_accuracy(scores[0], scores[0]);
        lemma_largest_accuracy(scores@, scores.len() as int);
    }
    match index_of_largest_value(scores.as_slice()) {
        Some(best) => {
            let accuracy = scores[best];
            proof {
                assert(rules[best as int].attribute_index == best);
                assert(accuracy.correct == training_correct(*dataset, best as int));
                assert forall|a: int| 0 <= a < dataset.width() implies #[trigger] training_correct(
                    *dataset,
                    a,
                ) <= accuracy.correct by {
                    assert(scores[a].correct <= scores[best as int].correct);
                }
                assert forall|a: int| 0 <= a < best implies #[trigger] training_correct(
                    *dataset,
                    a,
                ) < accuracy.correct by {
                    assert(scores[a].correct < scores[best as int].correct);
                }
            }
            let rule = rules.remove(best);
            Some((best, rule, accuracy))
        },
        None => None,
    }
}

/// For a value that no case is for, no class is predicted, and an example
/// with such a value does not count among the correct predictions.
pub proof fn lemma_unseen_value_is_wrong(
    cases: Seq<(Seq<char>, Seq<char>)>,
    values: Seq<Seq<char>>,
    classes: Seq<Seq<char>>,
    n: int,
)
    requires
        0 < n <= values.len(),
        !case_values(cases).contains(values[n - 1]),
    ensures
        predicted(cases, values[n - 1]) is None,
        correct_below(cases, values, classes, n) == correct_below(cases, values, classes, n - 1),
{
}

proof fn lemma_classes_where_uniform(
    values: Seq<Seq<char>>,
    classes: Seq<Seq<char>>,
    class: Seq<char>,
    value: Seq<char>,
    n: int,
)
    requires
        0 <= n <= values.len() == classes.len(),
        forall|r: int| 0 <= r < classes.len() ==> #[trigger] classes[r] == class,
    ensures
        forall|i: int|
            0 <= i < classes_where(values, classes, value, n).len() ==> #[trigger] classes_where(
                values,
                classes,
                value,
                n,
            )[i] == class,
        (exists|r: int| 0 <= r < n && #[trigger] values[r] == value) ==> classes_where(
            values,
            classes,
            value,
            n,
        ).len() > 0,
    decreases n,
{
    if n > 0 {
        lemma_classes_where_uniform(values, classes, class, value, n - 1);
        if exists|r: int| 0 <= r < n && #[trigger] values[r] == value {
            let r = choose|r: int| 0 <= r < n && #[trigger] values[r] == value;
            if r < n - 1 {
                assert(0 <= r < n - 1 && values[r] == value);
            }
        }
    }
}

/// Where all examples have one class, the rule learnt on any attribute
/// predicts every example of its training data correctly.
pub proof fn lemma_uniform_class_is_learnt(
    values: Seq<Seq<char>>,
    classes: Seq<Seq<char>>,
    class: Seq<char>,
    n: int,
)
    requires
        0 <= n <= values.len() == classes.len(),
        forall|r: int| 0 <= r < classes.len() ==> #[trigger] classes[r] == class,
    ensures
        correct_below(cases_for(values, classes), values, classes, n) == n,
    decreases n,
{
    if n > 0 {
        lemma_uniform_class_is_learnt(values, classes, class, n - 1);
        let cases = cases_for(values, classes);
        let value = values[n - 1];
        let total = values.len() as int;
        assert(case_values(cases) =~= first_seen(values));
        assert(values.contains(value));
        crate::iter::lemma_first_seen_contains(values, value);
        lemma_first_position(first_seen(values), value);
        let place = first_position(first_seen(values), value);
        lemma_classes_where_uniform(values, classes, class, value, total);
        assert(0 <= n - 1 < total && values[n - 1] == value);
        crate::iter::lemma_majority_of_one(classes_where(values, classes, value, total), class);
        assert(cases[place].1 == class);
        assert(classes[n - 1] == class);
        assert(predicted(cases, value) == Some(classes[n - 1]));
    }
}

proof fn lemma_classes_where_all(
    values: Seq<Seq<char>>,
    classes: Seq<Seq<char>>,
    value: Seq<char>,
    n: int,
)
    requires
        0 <= n <= values.len() == classes.len(),
        forall|r: int| 0 <= r < values.len() ==> #[trigger] values[r] == value,
    ensures
        classes_where(values, classes, value, n) == classes.take(n),
    decreases n,
{
    if n > 0 {
        lemma_classes_where_all(values, classes, value, n - 1);
        assert(values[n - 1] == value);
        assert(classes.take(n - 1).push(classes[n - 1]) =~= classes.take(n));
    } else {
        assert(classes.take(0) =~= Seq::<Seq<char>>::empty());
    }
}

/// Where the attribute has one value in all examples, the rule learnt has one
/// case, for that value and the class of most examples, and it predicts
/// correctly the examples of that class and no others.
pub proof fn lemma_single_value_is_majority_share(
    values: Seq<Seq<char>>,
    classes: Seq<Seq<char>>,
    value: Seq<char>,
    n: int,
)
    requires
        0 <= n <= values.len() == classes.len(),
        values.len() > 0,
        forall|r: int| 0 <= r < values.len() ==> #[trigger] values[r] == value,
    ensures
        cases_for(values, classes) == seq![(value, majority(classes))],
        correct_below(cases_for(values, classes), values, classes, n) == crate::iter::occurrences(
            classes.take(n),
            majority(classes),
        ),
    decreases n,
{
    let cases = cases_for(values, classes);
    crate::iter::lemma_majority_of_one(values, value);
    lemma_classes_where_all(values, classes, value, values.len() as int);
    assert(classes.take(classes.len() as int) =~= classes);
    assert(cases =~= seq![(value, majority(classes))]);
    if n > 0 {
        lemma_single_value_is_majority_share(values, classes, value, n - 1);
        assert(values[n - 1] == value);
        assert(case_values(cases) =~= seq![value]);
        assert(case_values(cases)[0] == value);
        lemma_first_position(case_values(cases), value);
        assert(predicted(cases, values[n - 1]) == Some(majority(classes)));
        assert(classes.take(n).drop_last() =~= classes.take(n - 1));
        assert(classes.take(n).last() == classes[n - 1]);
    }
}

/// Where all examples of a dataset have one class, the rule learnt on any of
/// its attributes predicts every example of the dataset correctly.
pub proof fn lemma_uniform_dataset_is_learnt(dataset: Dataset, a: int, class: Seq<char>)
    requires
        dataset.wf(),
        forall|r: int| 0 <= r < dataset.labels().len() ==> (#[trigger] dataset.labels()[r])@ == class,
    ensures
        training_correct(dataset, a) == dataset.rows().len(),
{
    lemma_uniform_class_is_learnt(
        keys(dataset.column(a)),
        keys(dataset.labels()),
        class,
        dataset.rows().len() as int,
    );
}

/// The accuracy that comes with the best rule of a dataset is the accuracy
/// that evaluating the rule on the dataset gives.
pub proof fn lemma_best_rule_accuracy(
    dataset: Dataset,
    attribute_index: usize,
    rule: Rule,
    accuracy: Accuracy,
)
    requires
        is_best_rule(dataset, attribute_index, rule, accuracy),
    ensures
        accuracy == accuracy_of(rule.cases@, rule.attribute_index as int, dataset),
{
}

/// The class of each example of the dataset beside the class that the rule
/// predicts for the example, if it predicts one.
pub fn predict(rule: &Rule, dataset: &Dataset) -> (predictions: Vec<(String, Option<String>)>)
    requires
        dataset.wf(),
        rule.attribute_index < dataset.width(),
    ensures
        predictions.len() == dataset.rows().len(),
        forall|r: int|
            0 <= r < predictions.len() ==> {
                &&& (#[trigger] predictions[r]).0 == dataset.labels()[r]
                &&& match predictions[r].1 {
                    Some(class) => predicted(
                        case_views(rule.cases@),
                        dataset.rows()[r][rule.attribute_index as int]@,
                    ) == Some(class@),
                    None => predicted(
                        case_views(rule.cases@),
                        dataset.rows()[r][rule.attribute_index as int]@,
                    ) is None,
                }
            },
{
    let values = dataset.attributes.column(rule.attribute_index);
    let classes = dataset.classes.to_vec();
    let mut predictions: Vec<(String, Option<String>)> = Vec::new();
    let mut r: usize = 0;
    while r < values.len()
        invariant
            r <= values.len(),
            values.len() == classes.len(),
            values.len() == dataset.rows().len(),
            classes@ == dataset.labels(),
            forall|k: int|
                0 <= k < values.len() ==> #[trigger] values[k]
                    == dataset.rows()[k][rule.attribute_index as int],
            predictions.len() == r,
            forall|k: int|
                0 <= k < r ==> {
                    &&& (#[trigger] predictions[k]).0 == dataset.labels()[k]
                    &&& match predictions[k].1 {
                        Some(class) => predicted(
                            case_views(rule.cases@),
                            dataset.rows()[k][rule.attribute_index as int]@,
                        ) == Some(class@),
                        None => predicted(
                            case_views(rule.cases@),
                            dataset.rows()[k][rule.attribute_index as int]@,
                        ) is None,
                    }
                },
        decreases values.len() - r,
    {
        let prediction = match interpret(&rule.cases, &values[r]) {
            Some(class) => Some(class.clone()),
            None => None,
        };
        predictions.push((classes[r].clone(), prediction));
        r = r + 1;
    }
    predictions
}

} // verus!
