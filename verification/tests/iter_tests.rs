use oner::iter::{frequency_count, most_frequent};

fn strings(items: &[&str]) -> Vec<String> {
    items.iter().map(|s| s.to_string()).collect()
}

#[test]
fn counts_each_label_once_in_order_of_first_appearance() {
    let labels = strings(&["b", "a", "b", "c", "a", "b"]);
    let counts = frequency_count(&labels);
    assert_eq!(counts.len(), 3);
    assert_eq!(counts[0], (&"b".to_string(), 3));
    assert_eq!(counts[1], (&"a".to_string(), 2));
    assert_eq!(counts[2], (&"c".to_string(), 1));
}

#[test]
fn counts_nothing_in_an_empty_sequence() {
    let labels: Vec<String> = Vec::new();
    assert!(frequency_count(&labels).is_empty());
}

#[test]
fn counts_integers() {
    let counts = frequency_count(&[7u8, 7, 9]);
    assert_eq!(counts, vec![(&7u8, 2), (&9u8, 1)]);
}

#[test]
fn most_frequent_of_nothing_is_none() {
    let labels: Vec<String> = Vec::new();
    assert_eq!(most_frequent(&labels), None);
}

#[test]
fn most_frequent_takes_the_highest_count() {
    let labels = strings(&["x", "y", "y", "z", "y", "x"]);
    assert_eq!(most_frequent(&labels), Some(&"y".to_string()));
}

#[test]
fn most_frequent_breaks_a_tie_by_first_appearance() {
    let labels = strings(&["late", "early", "early", "late"]);
    assert_eq!(most_frequent(&labels), Some(&"late".to_string()));
    let labels = strings(&["c", "b", "a", "a", "b"]);
    assert_eq!(most_frequent(&labels), Some(&"b".to_string()));
}
