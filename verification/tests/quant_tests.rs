use std::collections::HashMap;

use oner::quant::{
    interval_of, is_numeric, no_dominant_class, quantize, split_points, trim_splits, Interval,
    Number, Sample,
};

fn number(rank: i64) -> Number {
    Number { rank, text: rank.to_string() }
}

fn samples(pairs: &[(i64, &str)]) -> Vec<Sample> {
    pairs
        .iter()
        .enumerate()
        .map(|(row, (rank, class))| Sample {
            value: number(*rank),
            class: class.to_string(),
            row,
        })
        .collect()
}

fn lower(below: i64, class: &str) -> Interval {
    Interval::Lower { below: number(below), class: class.to_string() }
}

fn range(from: i64, below: i64, class: &str) -> Interval {
    Interval::Range { from: number(from), below: number(below), class: class.to_string() }
}

fn upper(from: i64, class: &str) -> Interval {
    Interval::Upper { from: number(from), class: class.to_string() }
}

fn infinite(class: &str) -> Interval {
    Interval::Infinite { class: class.to_string() }
}

fn golf() -> Vec<Sample> {
    samples(&[
        (64, "P"),
        (65, "D"),
        (68, "P"),
        (69, "P"),
        (70, "P"),
        (71, "D"),
        (72, "P"),
        (72, "D"),
        (75, "P"),
        (75, "P"),
        (80, "D"),
        (81, "P"),
        (83, "P"),
        (85, "D"),
    ])
}

fn quantized<'v>(column: &'v [(&str, &str)], small: usize) -> HashMap<&'v str, String> {
    let read = |text: &str| {
        let value: f32 = text.parse().unwrap();
        Number::from_bits(value.to_bits(), format!("{}", value))
    };
    let data: Vec<Sample> = column
        .iter()
        .enumerate()
        .map(|(row, (value, class))| Sample { value: read(value), class: class.to_string(), row })
        .collect();
    let intervals = quantize(&data, small);
    column
        .iter()
        .map(|(value, _)| (*value, interval_of(&intervals, &read(value)).unwrap().show()))
        .collect()
}

#[test]
fn test_golf_example() {
    let inputs = [
        ("64", "P"),
        ("65", "D"),
        ("68", "P"),
        ("69", "P"),
        ("70", "P"),
        ("71", "D"),
        ("72", "P"),
        ("72", "D"),
        ("75", "P"),
        ("75", "P"),
        ("80", "D"),
        ("81", "P"),
        ("83", "P"),
        ("85", "D"),
    ];

    let i1 = "< 85";
    let i2 = ">= 85";

    let expected: HashMap<&str, String> = [
        ("64", i1),
        ("65", i1),
        ("68", i1),
        ("69", i1),
        ("70", i1),
        ("71", i1),
        ("72", i1),
        ("75", i1),
        ("75", i1),
        ("80", i1),
        ("81", i1),
        ("83", i1),
        ("85", i2),
    ]
    .iter()
    .map(|(v, s)| (*v, s.to_string()))
    .collect();
    assert_eq!(expected, quantized(&inputs, 3));
}

#[test]
fn golf_example_gives_two_intervals() {
    let intervals = quantize(&golf(), 3);
    assert_eq!(intervals, vec![lower(85, "P"), upper(85, "D")]);
    assert_eq!(intervals[0].show(), "< 85");
    assert_eq!(intervals[1].show(), ">= 85");
}

#[test]
fn golf_example_maps_every_value_to_its_interval() {
    let intervals = quantize(&golf(), 3);
    for rank in [64, 65, 68, 69, 70, 71, 72, 75, 80, 81, 83] {
        let found = interval_of(&intervals, &number(rank)).unwrap();
        assert_eq!(found.show(), "< 85");
    }
    let found = interval_of(&intervals, &number(85)).unwrap();
    assert_eq!(found.show(), ">= 85");
}

#[test]
fn golf_example_split_points_and_trimming() {
    let data = golf();
    let splits = split_points(&data);
    assert_eq!(splits, vec![1, 2, 5, 6, 7, 8, 10, 11, 13]);
    assert_eq!(trim_splits(splits, 3, &data), vec![5, 13]);
}

#[test]
fn golf_example_intervals_before_merging() {
    let data = golf();
    let intervals = Interval::from_splits(vec![5, 13], &data);
    assert_eq!(intervals, vec![lower(71, "P"), range(71, 85, "P"), upper(85, "D")]);
}

#[test]
fn samples_are_sorted_before_they_are_split() {
    let shuffled = samples(&[(30, "b"), (10, "a"), (40, "b"), (20, "a")]);
    let intervals = quantize(&shuffled, 1);
    assert_eq!(intervals, vec![lower(30, "a"), upper(30, "b")]);
}

#[test]
fn samples_of_equal_value_keep_their_order() {
    let tied = samples(&[(2, "y"), (1, "x"), (2, "x"), (1, "y")]);
    let intervals = quantize(&tied, 0);
    // sorted: (1, x), (1, y), (2, y), (2, x): the class changes before the
    // second and before the fourth sample
    assert_eq!(intervals, vec![lower(1, "x"), range(1, 2, "y"), upper(2, "x")]);
}

#[test]
fn no_boundary_gives_one_interval_for_all_numbers() {
    let intervals = quantize(&samples(&[(1, "a"), (2, "b"), (3, "a")]), 5);
    assert_eq!(intervals, vec![infinite("a")]);
    assert_eq!(intervals[0].show(), "any value");
    assert!(interval_of(&intervals, &number(i64::MIN)).is_some());
    assert!(interval_of(&intervals, &number(i64::MAX)).is_some());
}

#[test]
fn majority_tie_goes_to_the_class_met_first() {
    let intervals = quantize(&samples(&[(1, "b"), (2, "a"), (3, "a"), (4, "b")]), 9);
    assert_eq!(intervals, vec![infinite("b")]);
}

#[test]
fn majority_tie_goes_by_the_order_before_sorting() {
    let intervals = quantize(&samples(&[(9, "x"), (1, "y")]), 9);
    assert_eq!(intervals, vec![infinite("x")]);
    let intervals = quantize(&samples(&[(5, "c"), (3, "a"), (1, "b"), (4, "b"), (2, "a")]), 9);
    assert_eq!(intervals, vec![infinite("a")]);
}

#[test]
fn rows_given_with_the_samples_do_not_matter_to_quantize() {
    let mut data = samples(&[(9, "x"), (1, "y")]);
    data[0].row = 7;
    data[1].row = 3;
    assert_eq!(quantize(&data, 9), vec![infinite("x")]);
    // from_splits goes by the rows that it is given
    assert_eq!(Interval::from_splits(Vec::new(), &data), vec![infinite("y")]);
}

#[test]
fn no_samples_give_no_interval() {
    let intervals = quantize(&Vec::new(), 3);
    assert!(intervals.is_empty());
    assert_eq!(interval_of(&intervals, &number(0)), None);
}

#[test]
fn intervals_cover_every_number_once() {
    let data = samples(&[
        (5, "a"),
        (5, "a"),
        (7, "b"),
        (7, "b"),
        (9, "a"),
        (9, "a"),
        (11, "c"),
        (11, "c"),
    ]);
    let intervals = quantize(&data, 1);
    assert_eq!(
        intervals,
        vec![lower(7, "a"), range(7, 9, "b"), range(9, 11, "a"), upper(11, "c")]
    );
    for rank in -3..20 {
        let value = number(rank);
        let covering = intervals
            .iter()
            .filter(|interval| match interval {
                Interval::Lower { below, .. } => rank < below.rank,
                Interval::Range { from, below, .. } => from.rank <= rank && rank < below.rank,
                Interval::Upper { from, .. } => from.rank <= rank,
                Interval::Infinite { .. } => true,
            })
            .count();
        assert_eq!(covering, 1);
        assert!(interval_of(&intervals, &value).is_some());
    }
    assert_eq!(interval_of(&intervals, &number(6)), Some(&intervals[0]));
    assert_eq!(interval_of(&intervals, &number(7)), Some(&intervals[1]));
    assert_eq!(interval_of(&intervals, &number(10)), Some(&intervals[2]));
    assert_eq!(interval_of(&intervals, &number(11)), Some(&intervals[3]));
}

#[test]
fn merging_leaves_no_neighbours_of_one_class_and_is_idempotent() {
    let chain = vec![
        lower(1, "a"),
        range(1, 2, "a"),
        range(2, 3, "b"),
        range(3, 4, "b"),
        range(4, 5, "b"),
        upper(5, "a"),
    ];
    let merged = Interval::merge_neighbours_with_same_class(&chain);
    assert_eq!(merged, vec![lower(2, "a"), range(2, 5, "b"), upper(5, "a")]);
    for pair in merged.windows(2) {
        assert_ne!(pair[0].class(), pair[1].class());
    }
    assert_eq!(Interval::merge_neighbours_with_same_class(&merged), merged);
}

#[test]
fn merging_everything_gives_the_infinite_interval() {
    let chain = vec![lower(1, "a"), range(1, 2, "a"), upper(2, "a")];
    assert_eq!(Interval::merge_neighbours_with_same_class(&chain), vec![infinite("a")]);
}

#[test]
fn merge_follows_the_algebra() {
    assert_eq!(lower(1, "a").merge(&range(1, 4, "b")), lower(4, "b"));
    assert_eq!(lower(1, "a").merge(&upper(1, "b")), infinite("b"));
    assert_eq!(range(1, 2, "a").merge(&range(2, 4, "b")), range(1, 4, "b"));
    assert_eq!(range(1, 2, "a").merge(&upper(2, "b")), upper(1, "b"));
}

#[test]
fn show_writes_each_kind_of_interval() {
    assert_eq!(lower(100, "a").show(), "< 100");
    assert_eq!(range(100, 200, "a").show(), ">= 100 and < 200");
    assert_eq!(upper(200, "a").show(), ">= 200");
    assert_eq!(infinite("a").show(), "any value");
    let half = Interval::Lower {
        below: Number { rank: 7, text: "72.5".to_string() },
        class: "a".to_string(),
    };
    assert_eq!(half.show(), "< 72.5");
}

#[test]
fn class_gives_the_class_of_each_kind() {
    assert_eq!(lower(1, "a").class(), "a");
    assert_eq!(range(1, 2, "b").class(), "b");
    assert_eq!(upper(1, "c").class(), "c");
    assert_eq!(infinite("d").class(), "d");
}

#[test]
fn no_dominant_class_compares_with_small() {
    let data = samples(&[(1, "a"), (2, "a"), (3, "b"), (4, "a")]);
    assert!(no_dominant_class(0, 4, 3, &data));
    assert!(!no_dominant_class(0, 4, 2, &data));
    assert!(no_dominant_class(2, 3, 1, &data));
    assert!(no_dominant_class(1, 1, 0, &data));
}

#[test]
fn trimming_is_one_pass_from_the_left() {
    let data = samples(&[(1, "a"), (2, "b"), (3, "b"), (4, "a"), (5, "a"), (6, "b")]);
    let splits = split_points(&data);
    assert_eq!(splits, vec![1, 3, 5]);
    // [0, 1) holds one a: dropped; [0, 3) holds two b: kept; [3, 5) holds two a: kept
    assert_eq!(trim_splits(splits, 1, &data), vec![3, 5]);
}

#[test]
fn numeric_columns_need_numbers_and_enough_distinct_values() {
    let values: Vec<String> = ["1", "", "?", "2", "3"].iter().map(|s| s.to_string()).collect();
    let numbers = vec![Some(number(1)), None, None, Some(number(2)), Some(number(3))];
    assert!(is_numeric(&values, &numbers, 4, "?"));
    assert!(!is_numeric(&values, &numbers, 5, "?"));
    assert!(!is_numeric(&values, &numbers, 4, "NA"));
    let words: Vec<String> = ["1", "x", "2", "3", "4"].iter().map(|s| s.to_string()).collect();
    let read = vec![Some(number(1)), None, Some(number(2)), Some(number(3)), Some(number(4))];
    assert!(!is_numeric(&words, &read, 0, "?"));
}
