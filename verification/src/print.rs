//! Rules and predictions written out as text.

use crate::dataset::Dataset;
use crate::oner::{Case, Rule};
use vstd::prelude::*;
use vstd::string::StringExecFns;

verus! {

/// The lines put together, with a line break between each two.
pub open spec fn joined_lines(lines: Seq<Seq<char>>) -> Seq<char>
    decreases lines.len(),
{
    if lines.len() == 0 {
        Seq::empty()
    } else if lines.len() == 1 {
        lines[0]
    } else {
        joined_lines(lines.drop_last()) + "\n"@ + lines.last()
    }
}

/// The line for one example: its class, a comma, and the class predicted for
/// it or, where none was predicted, the mark for a missing value.
pub open spec fn prediction_line(
    prediction: (String, Option<String>),
    missing: Seq<char>,
) -> Seq<char> {
    prediction.0@ + ","@ + match prediction.1 {
        Some(class) => class@,
        None => missing,
    }
}

/// The heading and one line for each example.
pub open spec fn prediction_lines(
    predictions: Seq<(String, Option<String>)>,
    missing: Seq<char>,
) -> Seq<Seq<char>> {
    seq!["Actual,Prediction"@] + Seq::new(
        predictions.len(),
        |i: int| prediction_line(predictions[i], missing),
    )
}

/// Writes the predictions as lines of two fields under a heading.
pub fn print_predictions(missing: &str, predictions: Vec<(String, Option<String>)>) -> (text:
    String)
    ensures
        text@ == joined_lines(prediction_lines(predictions@, missing@)),
{
    let mut text = String::from_str("Actual,Prediction");
    let mut i: usize = 0;
    proof {
        assert(prediction_lines(predictions@.take(0), missing@) =~= seq!["Actual,Prediction"@]);
    }
    while i < predictions.len()
        invariant
            i <= predictions.len(),
            text@ == joined_lines(prediction_lines(predictions@.take(i as int), missing@)),
        decreases predictions.len() - i,
    {
        let ghost before = prediction_lines(predictions@.take(i as int), missing@);
        let ghost after = prediction_lines(predictions@.take(i + 1), missing@);
        proof {
            assert(after.drop_last() =~= before);
            assert(after.last() == prediction_line(predictions[i as int], missing@));
        }
        text.append("\n");
        text.append(predictions[i].0.as_str());
        text.append(",");
        match &predictions[i].1 {
            Some(class) => {
                text.append(class.as_str());
            },
            None => {
                text.append(missing);
            },
        }
        proof {
            assert(text@ =~= joined_lines(before) + "\n"@ + after.last());
        }
        i = i + 1;
    }
    proof {
        assert(predictions@.take(i as int) =~= predictions@);
    }
    text
}

/// The line of a case in the form of a match arm.
pub open spec fn matcher_line(case: Case) -> Seq<char> {
    "  "@ + case.attribute_value@ + " => "@ + case.predicted_class@
}

/// The heading with the name of the attribute, and one line for each case.
pub open spec fn matcher_lines(cases: Seq<Case>, name: Seq<char>) -> Seq<Seq<char>> {
    seq!["match "@ + name] + Seq::new(cases.len(), |i: int| matcher_line(cases[i]))
}

/// Writes the rule as a match on the attribute, with one arm for each case
/// in the order of the cases.
pub fn as_matcher(rule: &Rule, attribute_index: usize, dataset: &Dataset) -> (text: String)
    requires
        attribute_index < dataset.attribute_names.len(),
    ensures
        text@ == joined_lines(
            matcher_lines(rule.cases@, dataset.attribute_names[attribute_index as int]@),
        ),
{
    let ghost name = dataset.attribute_names[attribute_index as int]@;
    let mut text = String::from_str("match ");
    text.append(dataset.attribute_names[attribute_index].as_str());
    let mut i: usize = 0;
    proof {
        assert(matcher_lines(rule.cases@.take(0), name) =~= seq!["match "@ + name]);
    }
    while i < rule.cases.len()
        invariant
            i <= rule.cases.len(),
            text@ == joined_lines(matcher_lines(rule.cases@.take(i as int), name)),
        decreases rule.cases.len() - i,
    {
        let ghost before = matcher_lines(rule.cases@.take(i as int), name);
        let ghost after = matcher_lines(rule.cases@.take(i + 1), name);
        proof {
            assert(after.drop_last() =~= before);
            assert(after.last() == matcher_line(rule.cases[i as int]));
        }
        text.append("\n");
        text.append("  ");
        text.append(rule.cases[i].attribute_value.as_str());
        text.append(" => ");
        text.append(rule.cases[i].predicted_class.as_str());
        proof {
            assert(text@ =~= joined_lines(before) + "\n"@ + after.last());
        }
        i = i + 1;
    }
    proof {
        assert(rule.cases@.take(i as int) =~= rule.cases@);
    }
    text
}

/// Whether the text `a` is `b` or comes before it in the order of strings.
/// Two texts are ordered by the code points of the first characters in which
/// they differ, and a text comes before every longer text that begins with
/// it.
pub open spec fn text_le(a: Seq<char>, b: Seq<char>) -> bool
    decreases a.len(),
{
    if a.len() == 0 {
        true
    } else if b.len() == 0 {
        false
    } else if a.first() != b.first() {
        (a.first() as int) < (b.first() as int)
    } else {
        text_le(a.drop_first(), b.drop_first())
    }
}

/// `cases` with `case` put behind every case whose attribute value does not
/// come after that of `case`, where `cases` are in order.
pub open spec fn case_inserted(cases: Seq<Case>, case: Case) -> Seq<Case>
    decreases cases.len(),
{
    if cases.len() == 0 || text_le(cases.last().attribute_value@, case.attribute_value@) {
        cases.push(case)
    } else {
        case_inserted(cases.drop_last(), case).push(cases.last())
    }
}

/// The cases in the order of their attribute values; cases with one
/// attribute value keep their order.
pub open spec fn sorted_cases(cases: Seq<Case>) -> Seq<Case>
    decreases cases.len(),
{
    if cases.len() == 0 {
        cases
    } else {
        case_inserted(sorted_cases(cases.drop_last()), cases.last())
    }
}

/// The order of strings holds any two texts against each other, and it is
/// transitive.
pub proof fn lemma_text_le_orders(a: Seq<char>, b: Seq<char>, c: Seq<char>)
    ensures
        text_le(a, a),
        text_le(a, b) || text_le(b, a),
        text_le(a, b) && text_le(b, c) ==> text_le(a, c),
        text_le(a, b) && text_le(b, a) ==> a == b,
    decreases a.len(),
{
    if a.len() > 0 {
        lemma_text_le_orders(a.drop_first(), a.drop_first(), a.drop_first());
        if b.len() > 0 {
            if c.len() > 0 {
                lemma_text_le_orders(a.drop_first(), b.drop_first(), c.drop_first());
            } else {
                lemma_text_le_orders(a.drop_first(), b.drop_first(), b.drop_first());
            }
            if a.first() == b.first() && text_le(a.drop_first(), b.drop_first()) && text_le(
                b.drop_first(),
                a.drop_first(),
            ) {
                assert(a =~= seq![a.first()] + a.drop_first());
                assert(b =~= seq![b.first()] + b.drop_first());
            }
        }
    } else if text_le(b, a) {
        assert(a =~= b);
    }
}

/// Whether no case is followed by one whose attribute value comes before its
/// own.
pub open spec fn cases_ascending(cases: Seq<Case>) -> bool {
    forall|i: int, j: int|
        0 <= i < j < cases.len() ==> text_le(cases[i].attribute_value@, cases[j].attribute_value@)
}

proof fn lemma_case_inserted_members(cases: Seq<Case>, case: Case)
    ensures
        case_inserted(cases, case).len() == cases.len() + 1,
        forall|i: int|
            0 <= i < case_inserted(cases, case).len() ==> (#[trigger] case_inserted(cases, case)[i])
                == case || cases.contains(case_inserted(cases, case)[i]),
    decreases cases.len(),
{
    if !(cases.len() == 0 || text_le(cases.last().attribute_value@, case.attribute_value@)) {
        let front = cases.drop_last();
        lemma_case_inserted_members(front, case);
        let within = case_inserted(front, case);
        assert forall|i: int| 0 <= i < case_inserted(cases, case).len() implies (
        #[trigger] case_inserted(cases, case)[i]) == case || cases.contains(
            case_inserted(cases, case)[i],
        ) by {
            if i < within.len() {
                if within[i] != case {
                    let k = choose|k: int| 0 <= k < front.len() && front[k] == within[i];
                    assert(cases[k] == within[i]);
                }
            } else {
                assert(cases[cases.len() - 1] == cases.last());
            }
        }
    } else {
        assert forall|i: int| 0 <= i < cases.push(case).len() implies (#[trigger] cases.push(
            case,
        )[i]) == case || cases.contains(cases.push(case)[i]) by {
            if i < cases.len() {
                assert(cases[i] == cases.push(case)[i]);
            }
        }
    }
}

proof fn lemma_case_inserted_ascending(cases: Seq<Case>, case: Case)
    requires
        cases_ascending(cases),
    ensures
        cases_ascending(case_inserted(cases, case)),
    decreases cases.len(),
{
    let value = case.attribute_value@;
    if cases.len() == 0 {
    } else if text_le(cases.last().attribute_value@, value) {
        assert forall|i: int, j: int| 0 <= i < j < cases.push(case).len() implies text_le(
            cases.push(case)[i].attribute_value@,
            cases.push(case)[j].attribute_value@,
        ) by {
            if j == cases.len() {
                lemma_text_le_orders(
                    cases[i].attribute_value@,
                    cases.last().attribute_value@,
                    value,
                );
                if i < cases.len() - 1 {
                    assert(text_le(cases[i].attribute_value@, cases[cases.len() - 1].attribute_value@));
                }
            }
        }
    } else {
        let front = cases.drop_last();
        let last = cases.last();
        lemma_case_inserted_ascending(front, case);
        lemma_case_inserted_members(front, case);
        lemma_text_le_orders(last.attribute_value@, value, value);
        let within = case_inserted(front, case);
        assert forall|i: int, j: int| 0 <= i < j < within.push(last).len() implies text_le(
            within.push(last)[i].attribute_value@,
            within.push(last)[j].attribute_value@,
        ) by {
            if j == within.len() {
                if within[i] != case {
                    let k = choose|k: int| 0 <= k < front.len() && front[k] == within[i];
                    assert(text_le(cases[k].attribute_value@, cases[cases.len() - 1].attribute_value@));
                }
            }
        }
    }
}

/// The cases of `cases` that are for the attribute value `value`, in their
/// order.
pub open spec fn cases_of_value(cases: Seq<Case>, value: Seq<char>) -> Seq<Case>
    decreases cases.len(),
{
    if cases.len() == 0 {
        cases
    } else if cases.last().attribute_value@ == value {
        cases_of_value(cases.drop_last(), value).push(cases.last())
    } else {
        cases_of_value(cases.drop_last(), value)
    }
}

proof fn lemma_case_inserted_of_value(cases: Seq<Case>, case: Case, value: Seq<char>)
    ensures
        cases_of_value(case_inserted(cases, case), value) == if case.attribute_value@ == value {
            cases_of_value(cases, value).push(case)
        } else {
            cases_of_value(cases, value)
        },
    decreases cases.len(),
{
    if cases.len() == 0 || text_le(cases.last().attribute_value@, case.attribute_value@) {
        assert(cases.push(case).drop_last() =~= cases);
    } else {
        let front = cases.drop_last();
        lemma_case_inserted_of_value(front, case, value);
        lemma_text_le_orders(value, value, value);
        assert(case_inserted(front, case).push(cases.last()).drop_last() =~= case_inserted(
            front,
            case,
        ));
    }
}

/// `sorted_cases(cases)` is in the order of the attribute values, and it
/// holds the cases for any one attribute value in the order that they have in
/// `cases`.
pub proof fn lemma_sorted_cases(cases: Seq<Case>, value: Seq<char>)
    ensures
        cases_ascending(sorted_cases(cases)),
        cases_of_value(sorted_cases(cases), value) == cases_of_value(cases, value),
    decreases cases.len(),
{
    if cases.len() > 0 {
        let front = cases.drop_last();
        lemma_sorted_cases(front, value);
        lemma_case_inserted_ascending(sorted_cases(front), cases.last());
        lemma_case_inserted_of_value(sorted_cases(front), cases.last(), value);
    }
}

proof fn lemma_case_inserted_permutes(cases: Seq<Case>, case: Case)
    ensures
        case_inserted(cases, case).to_multiset() == cases.to_multiset().insert(case),
    decreases cases.len(),
{
    broadcast use vstd::seq_lib::group_to_multiset_ensures;

    if !(cases.len() == 0 || text_le(cases.last().attribute_value@, case.attribute_value@)) {
        let front = cases.drop_last();
        lemma_case_inserted_permutes(front, case);
        assert(front.push(cases.last()) =~= cases);
        assert(front.to_multiset().insert(case).insert(cases.last()) =~= front.to_multiset().insert(
            cases.last(),
        ).insert(case));
    }
}

/// `sorted_cases(cases)` holds the cases of `cases`, each as often as `cases`
/// does.
pub proof fn lemma_sorted_cases_permutes(cases: Seq<Case>)
    ensures
        sorted_cases(cases).to_multiset() == cases.to_multiset(),
        sorted_cases(cases).len() == cases.len(),
    decreases cases.len(),
{
    broadcast use vstd::seq_lib::group_to_multiset_ensures;

    if cases.len() > 0 {
        let front = cases.drop_last();
        lemma_sorted_cases_permutes(front);
        lemma_case_inserted_permutes(sorted_cases(front), cases.last());
        assert(front.push(cases.last()) =~= cases);
    }
    sorted_cases(cases).to_multiset_ensures();
    cases.to_multiset_ensures();
}

/// `sort_by_key` of the standard library, with the attribute value as the
/// key: a stable sort in the order of strings, which goes by the characters'
/// code points.
#[verifier::external_body]
fn sort_by_value(cases: &mut Vec<Case>)
    ensures
        final(cases)@ == sorted_cases(old(cases)@),
{
    cases.sort_by_key(|case| case.attribute_value.to_owned());
}

/// The line of a case in the form of a conditional sentence.
pub open spec fn if_then_line(case: Case, name: Seq<char>) -> Seq<char> {
    "IF "@ + name + " = "@ + case.attribute_value@ + " THEN "@ + case.predicted_class@
}

/// One line for each case.
pub open spec fn if_then_lines(cases: Seq<Case>, name: Seq<char>) -> Seq<Seq<char>> {
    Seq::new(cases.len(), |i: int| if_then_line(cases[i], name))
}

/// Writes the rule as one conditional sentence for each case, in the order
/// of the attribute values.
pub fn as_if_then(rule: &Rule, attribute_index: usize, dataset: &Dataset) -> (text: String)
    requires
        attribute_index < dataset.attribute_names.len(),
    ensures
        text@ == joined_lines(
            if_then_lines(
                sorted_cases(rule.cases@),
                dataset.attribute_names[attribute_index as int]@,
            ),
        ),
{
    let attr_name = &dataset.attribute_names[attribute_index];
    let mut sorted: Vec<Case> = Vec::new();
    let mut i: usize = 0;
    while i < rule.cases.len()
        invariant
            i <= rule.cases.len(),
            sorted@ == rule.cases@.take(i as int),
        decreases rule.cases.len() - i,
    {
        sorted.push(rule.cases[i].clone());
        proof {
            assert(rule.cases@.take(i + 1) =~= rule.cases@.take(i as int).push(rule.cases[i as int]));
        }
        i = i + 1;
    }
    proof {
        assert(rule.cases@.take(i as int) =~= rule.cases@);
    }
    sort_by_value(&mut sorted);
    let mut text = String::new();
    let mut k: usize = 0;
    proof {
        assert(if_then_lines(sorted@.take(0), attr_name@) =~= Seq::<Seq<char>>::empty());
    }
    while k < sorted.len()
        invariant
            k <= sorted.len(),
            text@ == joined_lines(if_then_lines(sorted@.take(k as int), attr_name@)),
        decreases sorted.len() - k,
    {
        let ghost before = if_then_lines(sorted@.take(k as int), attr_name@);
        let ghost after = if_then_lines(sorted@.take(k + 1), attr_name@);
        proof {
            assert(after.drop_last() =~= before);
            assert(after.last() == if_then_line(sorted[k as int], attr_name@));
        }
        if k > 0 {
            text.append("\n");
        }
        text.append("IF ");
        text.append(attr_name.as_str());
        text.append(" = ");
        text.append(sorted[k].attribute_value.as_str());
        text.append(" THEN ");
        text.append(sorted[k].predicted_class.as_str());
        proof {
            if k > 0 {
                assert(text@ =~= joined_lines(before) + "\n"@ + after.last());
            } else {
                assert(text@ =~= after.last());
            }
        }
        k = k + 1;
    }
    proof {
        assert(sorted@.take(k as int) =~= sorted@);
    }
    text
}

} // verus!
