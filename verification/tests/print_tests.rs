use oner::dataset::Dataset;
use oner::oner::{Case, Rule};
use oner::print::{as_if_then, as_matcher, print_predictions};

fn case(value: &str, class: &str) -> Case {
    Case { attribute_value: value.to_string(), predicted_class: class.to_string() }
}

fn names() -> Dataset {
    Dataset::new(0, &vec!["outlook".to_string(), "windy".to_string()])
}

#[test]
fn predictions_are_written_under_a_heading() {
    let predictions = vec![
        ("yes".to_string(), Some("yes".to_string())),
        ("no".to_string(), None),
        ("no".to_string(), Some("yes".to_string())),
    ];
    assert_eq!(print_predictions("?", predictions), "Actual,Prediction\nyes,yes\nno,?\nno,yes");
}

#[test]
fn no_predictions_give_the_heading_alone() {
    assert_eq!(print_predictions("?", Vec::new()), "Actual,Prediction");
}

#[test]
fn if_then_lines_are_sorted_by_value() {
    let rule = Rule {
        attribute_index: 0,
        cases: vec![case("sunny", "play"), case("rainy", "stay"), case("cloudy", "play")],
    };
    assert_eq!(
        as_if_then(&rule, 0, &names()),
        "IF outlook = cloudy THEN play\nIF outlook = rainy THEN stay\nIF outlook = sunny THEN play"
    );
}

#[test]
fn if_then_sorts_as_strings_are_ordered() {
    let rule = Rule {
        attribute_index: 1,
        cases: vec![case("b", "1"), case("ab", "2"), case("a", "3"), case("B", "4"), case("", "5")],
    };
    assert_eq!(
        as_if_then(&rule, 1, &names()),
        "IF windy =  THEN 5\nIF windy = B THEN 4\nIF windy = a THEN 3\nIF windy = ab THEN 2\nIF windy = b THEN 1"
    );
}

#[test]
fn if_then_of_no_cases_is_empty() {
    let rule = Rule { attribute_index: 0, cases: Vec::new() };
    assert_eq!(as_if_then(&rule, 0, &names()), "");
}

#[test]
fn matcher_keeps_the_order_of_the_cases() {
    let rule = Rule { attribute_index: 1, cases: vec![case("yes", "stay"), case("no", "play")] };
    assert_eq!(as_matcher(&rule, 1, &names()), "match windy\n  yes => stay\n  no => play");
}
