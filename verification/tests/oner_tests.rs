use oner::accuracy::Accuracy;
use oner::dataset::Dataset;
use oner::oner::{
    discover, evaluate, generate_hypotheses, generate_rule_for_attribute, index_of_largest_value,
    interpret, predict, score, Case, Interpreter, Rule,
};
use oner::trial::{run_many, run_trial};
use rand::rngs::StdRng;
use rand::SeedableRng;

fn strings(items: &[&str]) -> Vec<String> {
    items.iter().map(|s| s.to_string()).collect()
}

fn case(value: &str, class: &str) -> Case {
    Case { attribute_value: value.to_string(), predicted_class: class.to_string() }
}

fn dataset(names: &[&str], rows: &[&[&str]], classes: &[&str]) -> Dataset {
    let mut header = strings(names);
    header.push("class".to_string());
    let records: Vec<Vec<String>> = rows
        .iter()
        .zip(classes.iter())
        .map(|(row, class)| {
            let mut record = strings(row);
            record.push(class.to_string());
            record
        })
        .collect();
    Dataset::from_records(&header, &records).unwrap()
}

fn weather() -> Dataset {
    dataset(
        &["outlook", "windy"],
        &[
            &["sunny", "no"],
            &["sunny", "yes"],
            &["rainy", "no"],
            &["rainy", "yes"],
            &["rainy", "no"],
            &["cloudy", "yes"],
        ],
        &["play", "play", "stay", "stay", "play", "play"],
    )
}

#[test]
fn rule_has_one_case_for_each_value_in_order_of_first_appearance() {
    let rule = generate_rule_for_attribute(&weather(), 0);
    assert_eq!(
        rule,
        Rule {
            attribute_index: 0,
            cases: vec![case("sunny", "play"), case("rainy", "stay"), case("cloudy", "play")],
        }
    );
}

#[test]
fn rule_breaks_a_tie_by_the_class_met_first() {
    let rule = generate_rule_for_attribute(&weather(), 1);
    assert_eq!(
        rule,
        Rule { attribute_index: 1, cases: vec![case("no", "play"), case("yes", "play")] }
    );
}

#[test]
fn rule_learnt_from_no_examples_has_no_case() {
    let empty = dataset(&["n"], &[], &[]);
    assert_eq!(
        generate_rule_for_attribute(&empty, 5),
        Rule { attribute_index: 5, cases: Vec::new() }
    );
}

#[test]
fn hypotheses_hold_one_rule_for_each_attribute() {
    let rules = generate_hypotheses(&weather());
    assert_eq!(rules.len(), 2);
    assert_eq!(rules[0].attribute_index, 0);
    assert_eq!(rules[1].attribute_index, 1);
}

#[test]
fn apply_looks_up_the_value_of_the_attribute() {
    let rule = Rule { attribute_index: 1, cases: vec![case("a", "x"), case("b", "y")] };
    assert_eq!(rule.apply(&strings(&["b", "a"])), Some("x".to_string()));
    assert_eq!(rule.apply(&strings(&["a", "b"])), Some("y".to_string()));
}

#[test]
fn unseen_value_gets_no_prediction_and_counts_as_wrong() {
    let rule = Rule { attribute_index: 0, cases: vec![case("a", "x")] };
    assert_eq!(rule.apply(&strings(&["never seen"])), None);
    assert_eq!(interpret(&rule.cases, &"never seen".to_string()), None);
    let held_out = dataset(&["n"], &[&["a"], &["never seen"]], &["x", "x"]);
    assert_eq!(evaluate(&rule, &held_out), Accuracy { correct: 1, total: 2 });
}

#[test]
fn evaluate_counts_correct_predictions_over_all_rows() {
    let rule = generate_rule_for_attribute(&weather(), 0);
    let accuracy = evaluate(&rule, &weather());
    assert_eq!((accuracy.correct, accuracy.total), (5, 6));
    let rule = generate_rule_for_attribute(&weather(), 1);
    let accuracy = evaluate(&rule, &weather());
    assert_eq!((accuracy.correct, accuracy.total), (4, 6));
}

#[test]
fn score_holds_cases_against_columns() {
    let cases = vec![case("a", "x"), case("b", "y"), case("a", "never used")];
    let accuracy = score(&cases, &strings(&["a", "b", "c", "a"]), &strings(&["x", "x", "x", "y"]));
    assert_eq!((accuracy.correct, accuracy.total), (1, 4));
}

#[test]
fn evaluate_on_no_rows_is_zero() {
    let rule = Rule { attribute_index: 0, cases: vec![case("a", "x")] };
    let empty = dataset(&["n"], &[], &[]);
    let accuracy = evaluate(&rule, &empty);
    assert_eq!((accuracy.correct, accuracy.total), (0, 0));
    assert!(accuracy == Accuracy { correct: 0, total: 5 });
}

#[test]
fn evaluate_on_no_rows_takes_any_rule() {
    let beyond = Rule { attribute_index: 7, cases: vec![case("a", "x")] };
    let empty = dataset(&["n"], &[], &[]);
    let accuracy = evaluate(&beyond, &empty);
    assert_eq!((accuracy.correct, accuracy.total), (0, 0));
    let bare = Dataset::new(0, &[]);
    let accuracy = evaluate(&Rule { attribute_index: 0, cases: Vec::new() }, &bare);
    assert_eq!((accuracy.correct, accuracy.total), (0, 0));
}

#[test]
fn discover_on_no_rows_finds_no_rule() {
    assert!(discover(&dataset(&["a", "b"], &[], &[])).is_none());
}

#[test]
fn discover_without_attributes_finds_no_rule() {
    let bare = Dataset::new(2, &[]);
    assert!(discover(&bare).is_none());
}

#[test]
fn discover_picks_the_most_accurate_rule_with_its_accuracy() {
    let (attribute_index, rule, accuracy) = discover(&weather()).unwrap();
    assert_eq!(attribute_index, 0);
    assert_eq!(rule, generate_rule_for_attribute(&weather(), 0));
    assert!(accuracy == evaluate(&rule, &weather()));
    assert_eq!((accuracy.correct, accuracy.total), (5, 6));
}

#[test]
fn discover_keeps_the_first_of_equally_accurate_rules() {
    let data = dataset(
        &["first", "second", "third"],
        &[&["a", "p", "k"], &["b", "q", "k"], &["a", "p", "k"], &["b", "q", "k"]],
        &["x", "y", "x", "y"],
    );
    let (attribute_index, rule, accuracy) = discover(&data).unwrap();
    assert_eq!(attribute_index, 0);
    assert_eq!(rule.attribute_index, 0);
    assert_eq!((accuracy.correct, accuracy.total), (4, 4));
    let later = dataset(
        &["first", "second"],
        &[&["k", "p"], &["k", "q"], &["k", "p"], &["k", "q"]],
        &["x", "y", "x", "y"],
    );
    let (attribute_index, _, accuracy) = discover(&later).unwrap();
    assert_eq!(attribute_index, 1);
    assert_eq!((accuracy.correct, accuracy.total), (4, 4));
}

#[test]
fn uniform_class_is_learnt_without_error() {
    let data = dataset(
        &["a", "b"],
        &[&["u", "1"], &["v", "1"], &["u", "1"]],
        &["same", "same", "same"],
    );
    for a in 0..2 {
        let rule = generate_rule_for_attribute(&data, a);
        let accuracy = evaluate(&rule, &data);
        assert_eq!((accuracy.correct, accuracy.total), (3, 3));
    }
}

#[test]
fn single_value_column_predicts_the_majority_class() {
    let data = dataset(&["a"], &[&["k"], &["k"], &["k"]], &["x", "y", "y"]);
    let rule = generate_rule_for_attribute(&data, 0);
    assert_eq!(rule.cases, vec![case("k", "y")]);
    let accuracy = evaluate(&rule, &data);
    assert_eq!((accuracy.correct, accuracy.total), (2, 3));
}

#[test]
fn index_of_largest_value_is_the_first_of_the_largest() {
    assert_eq!(index_of_largest_value::<u8>(&[]), None);
    assert_eq!(index_of_largest_value(&[3]), Some(0));
    assert_eq!(index_of_largest_value(&[1, 5, 2, 5, 0]), Some(1));
    let scores = [
        Accuracy { correct: 1, total: 4 },
        Accuracy { correct: 2, total: 4 },
        Accuracy { correct: 1, total: 2 },
    ];
    assert_eq!(index_of_largest_value(&scores), Some(1));
}

#[test]
fn accuracies_compare_as_fractions() {
    let half = Accuracy { correct: 1, total: 2 };
    let third = Accuracy { correct: 1, total: 3 };
    let none = Accuracy { correct: 0, total: 0 };
    assert!(half > third);
    assert!(third < half);
    assert!(half == Accuracy { correct: 2, total: 4 });
    assert!(third > none);
    assert!(none == Accuracy { correct: 0, total: 9 });
    assert!(!(none > none));
}

#[test]
fn predict_lists_the_class_and_the_prediction_of_each_example() {
    let rule = Rule { attribute_index: 1, cases: vec![case("no", "play"), case("maybe", "stay")] };
    let predictions = predict(&rule, &weather());
    assert_eq!(predictions.len(), 6);
    assert_eq!(predictions[0], ("play".to_string(), Some("play".to_string())));
    assert_eq!(predictions[1], ("play".to_string(), None));
    assert_eq!(predictions[2], ("stay".to_string(), Some("play".to_string())));
}

#[test]
fn trial_learns_on_one_dataset_and_tests_on_another() {
    let testing = dataset(
        &["outlook", "windy"],
        &[&["sunny", "no"], &["rainy", "no"], &["snowy", "no"]],
        &["play", "play", "play"],
    );
    let trial = run_trial(&weather(), &testing).unwrap();
    assert_eq!(trial.attribute_index, 0);
    assert_eq!(trial.rule, generate_rule_for_attribute(&weather(), 0));
    assert_eq!((trial.training_accuracy.correct, trial.training_accuracy.total), (5, 6));
    assert_eq!((trial.test_accuracy.correct, trial.test_accuracy.total), (1, 3));
    assert!(run_trial(&testing.split_by(&Vec::new(), 0).0, &testing).is_none());
}

#[test]
fn run_many_makes_one_trial_for_each_repeat() {
    let mut rng: StdRng = SeedableRng::seed_from_u64(3u64);
    let trials = run_many(&mut rng, &weather(), 4, 5);
    assert_eq!(trials.len(), 5);
    for trial in trials.iter() {
        assert_eq!(trial.training_accuracy.total, 4);
        assert_eq!(trial.test_accuracy.total, 2);
        assert!(trial.training_accuracy.correct <= 4);
        assert_eq!(trial.rule.attribute_index, trial.attribute_index);
    }
    assert!(run_many(&mut rng, &weather(), 0, 5).is_empty());
}
