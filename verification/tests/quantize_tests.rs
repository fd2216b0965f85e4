use oner::dataset::Dataset;
use oner::quant::{Interval, Number};
use oner::quantize::{auto_quantize, count_distinct, quantize_column, show};

fn strings(items: &[&str]) -> Vec<String> {
    items.iter().map(|s| s.to_string()).collect()
}

fn read(cell: &str) -> Option<Number> {
    cell.parse::<i64>().ok().map(|rank| Number { rank, text: rank.to_string() })
}

#[test]
fn test_count_distinct() {
    assert_eq!(0, count_distinct::<u8>(&[]));
    assert_eq!(1, count_distinct(&[0]));
    assert_eq!(1, count_distinct(&[0, 0]));
    assert_eq!(2, count_distinct(&[0, 1, 0]));
}

#[test]
fn count_distinct_strings() {
    assert_eq!(3, count_distinct(&strings(&["a", "b", "a", "", "b"])));
}

#[test]
fn show_is_the_description_of_the_interval() {
    let interval = Interval::Range {
        from: Number { rank: 1, text: "1.5".to_string() },
        below: Number { rank: 2, text: "3".to_string() },
        class: "x".to_string(),
    };
    assert_eq!(show(&interval), ">= 1.5 and < 3");
}

#[test]
fn quantize_column_replaces_numbers_by_intervals() {
    let values = strings(&["1", "2", "?", "3", "4", ""]);
    let numbers: Vec<Option<Number>> = values.iter().map(|v| read(v)).collect();
    let classes = strings(&["a", "a", "a", "b", "b", "b"]);
    let quantized = quantize_column(&values, &numbers, &classes, 3, 1, "?");
    assert_eq!(quantized, strings(&["< 3", "< 3", "?", ">= 3", ">= 3", ""]));
}

#[test]
fn quantize_column_leaves_other_columns_alone() {
    let values = strings(&["1", "2", "x", "3"]);
    let numbers: Vec<Option<Number>> = values.iter().map(|v| read(v)).collect();
    let classes = strings(&["a", "a", "b", "b"]);
    assert_eq!(quantize_column(&values, &numbers, &classes, 0, 1, "?"), values);
    let few = strings(&["1", "2", "1", "2"]);
    let numbers: Vec<Option<Number>> = few.iter().map(|v| read(v)).collect();
    assert_eq!(quantize_column(&few, &numbers, &classes, 2, 1, "?"), few);
}

#[test]
fn marked_cells_are_no_samples_even_if_they_read_as_numbers() {
    let values = strings(&["1", "2", "0", "3", "4"]);
    let numbers: Vec<Option<Number>> = values.iter().map(|v| read(v)).collect();
    let classes = strings(&["a", "a", "b", "b", "b"]);
    let quantized = quantize_column(&values, &numbers, &classes, 1, 1, "0");
    assert_eq!(quantized, strings(&["< 3", "< 3", "0", ">= 3", ">= 3"]));
}

#[test]
fn auto_quantize_works_column_by_column() {
    let names = strings(&["size", "colour"]);
    let records = vec![
        strings(&["10", "red", "no"]),
        strings(&["20", "red", "no"]),
        strings(&["30", "blue", "yes"]),
        strings(&["40", "blue", "yes"]),
    ];
    let dataset = Dataset::from_records(&strings(&["size", "colour", "class"]), &records).unwrap();
    let numbers: Vec<Vec<Option<Number>>> = (0..2)
        .map(|c| dataset.attributes.column(c).iter().map(|v| read(v)).collect())
        .collect();
    let quantized = auto_quantize(dataset, &numbers, 2, 1, "?");
    assert_eq!(quantized.attribute_names, names);
    assert_eq!(quantized.attributes.column(0), strings(&["< 30", "< 30", ">= 30", ">= 30"]));
    assert_eq!(quantized.attributes.column(1), strings(&["red", "red", "blue", "blue"]));
    assert_eq!(quantized.classes.to_vec(), strings(&["no", "no", "yes", "yes"]));
}
