use oner::dataset::{Classes, Dataset, LoadError};
use rand::rngs::StdRng;
use rand::SeedableRng;

fn strings(items: &[&str]) -> Vec<String> {
    items.iter().map(|s| s.to_string()).collect()
}

fn numbered(rows: usize) -> Dataset {
    let records: Vec<Vec<String>> =
        (0..rows).map(|r| vec![format!("v{}", r), format!("w{}", r), format!("c{}", r)]).collect();
    Dataset::from_records(&strings(&["n", "m", "class"]), &records).unwrap()
}

#[test]
fn test_can_split() {
    let ds = Dataset::new(100, &vec!["a".to_string(), "b".to_string()]);
    let mut rng: StdRng = SeedableRng::seed_from_u64(1u64);
    let left_count = (2.0 / 3.0 * 100 as f64).round() as usize;
    let (left, right) = ds.split(&mut rng, left_count);
    assert_eq!(left.attributes.len(), 2 * 67);
    assert_eq!(right.attributes.len(), 2 * (100 - 67));
}

#[test]
fn new_dataset_is_blank() {
    let dataset = Dataset::new(3, &strings(&["a", "b"]));
    assert_eq!(dataset.attribute_names, strings(&["a", "b"]));
    assert_eq!(dataset.attributes.nrows(), 3);
    assert_eq!(dataset.attributes.ncols(), 2);
    assert_eq!(dataset.attributes.len(), 6);
    assert_eq!(dataset.attributes.row(2), strings(&["", ""]));
    assert_eq!(dataset.classes.to_vec(), strings(&["", "", ""]));
}

#[test]
fn dataset_without_rows_keeps_its_width() {
    let dataset = Dataset::new(0, &strings(&["a", "b", "c", "d"]));
    assert_eq!(dataset.attributes.nrows(), 0);
    assert_eq!(dataset.attributes.ncols(), 4);
    assert_eq!(dataset.attributes.len(), 0);
    assert!(dataset.attributes.column(3).is_empty());
}

#[test]
fn records_are_divided_into_attributes_and_class() {
    let records = vec![strings(&["a", "b", "x"]), strings(&["d", "e", "y"])];
    let dataset = Dataset::from_records(&strings(&["one", "two", "class"]), &records).unwrap();
    assert_eq!(dataset.attribute_names, strings(&["one", "two"]));
    assert_eq!(dataset.attributes.row(0), strings(&["a", "b"]));
    assert_eq!(dataset.attributes.row(1), strings(&["d", "e"]));
    assert_eq!(dataset.attributes.column(1), strings(&["b", "e"]));
    assert_eq!(dataset.classes.to_vec(), strings(&["x", "y"]));
}

#[test]
fn records_need_an_attribute_beside_the_class() {
    let loaded = Dataset::from_records(&strings(&["class"]), &vec![strings(&["x"])]);
    assert_eq!(loaded.err(), Some(LoadError::TooFewColumns));
    let loaded = Dataset::from_records(&[], &Vec::new());
    assert_eq!(loaded.err(), Some(LoadError::TooFewColumns));
}

#[test]
fn records_must_be_as_long_as_the_heading() {
    let records = vec![strings(&["a", "x"]), strings(&["b"]), strings(&["c", "d", "e"])];
    let loaded = Dataset::from_records(&strings(&["one", "class"]), &records);
    assert_eq!(loaded.err(), Some(LoadError::MalformedRow { row: 1 }));
}

#[test]
fn heading_alone_gives_a_dataset_without_examples() {
    let dataset = Dataset::from_records(&strings(&["one", "class"]), &Vec::new()).unwrap();
    assert_eq!(dataset.attribute_names, strings(&["one"]));
    assert_eq!(dataset.attributes.nrows(), 0);
    assert!(dataset.classes.to_vec().is_empty());
}

#[test]
fn split_by_follows_the_order() {
    let dataset = numbered(4);
    let (left, right) = dataset.split_by(&vec![2, 0, 3, 1], 3);
    assert_eq!(left.attribute_names, strings(&["n", "m"]));
    assert_eq!(left.attributes.column(0), strings(&["v2", "v0", "v3"]));
    assert_eq!(left.attributes.column(1), strings(&["w2", "w0", "w3"]));
    assert_eq!(left.classes.to_vec(), strings(&["c2", "c0", "c3"]));
    assert_eq!(right.attributes.column(0), strings(&["v1"]));
    assert_eq!(right.classes.to_vec(), strings(&["c1"]));
}

#[test]
fn split_hands_out_every_example_once() {
    let dataset = numbered(10);
    let mut rng: StdRng = SeedableRng::seed_from_u64(7u64);
    let (left, right) = dataset.split(&mut rng, 6);
    assert_eq!(left.attributes.nrows(), 6);
    assert_eq!(right.attributes.nrows(), 4);
    let mut values = left.attributes.column(0);
    values.extend(right.attributes.column(0));
    let mut labels = left.classes.to_vec();
    labels.extend(right.classes.to_vec());
    for (value, label) in values.iter().zip(labels.iter()) {
        assert_eq!(value[1..], label[1..]);
    }
    values.sort();
    let expected: Vec<String> = (0..10).map(|r| format!("v{}", r)).collect();
    assert_eq!(values, expected);
}

#[test]
fn well_formed_datasets_have_a_class_for_each_example_and_a_name_for_each_attribute() {
    let mut dataset = numbered(3);
    assert!(dataset.is_well_formed());
    assert!(Dataset::new(0, &[]).is_well_formed());
    dataset.classes = Classes::from_vec(strings(&["only one"]));
    assert!(!dataset.is_well_formed());
    let mut dataset = numbered(3);
    dataset.attribute_names.pop();
    assert!(!dataset.is_well_formed());
}
