use oner::dataset::shape_is_small;
use oner::quant::{interval_of, quantize, Number, Sample};

fn read(value: f32) -> Number {
    Number::from_bits(value.to_bits(), format!("{}", value))
}

#[test]
fn ranks_follow_the_order_of_the_numbers() {
    let values = [
        f32::NEG_INFINITY,
        -1.0e30,
        -2.5,
        -1.0,
        -1.0e-40,
        0.0,
        1.0e-40,
        0.5,
        1.0,
        64.0,
        71.5,
        1.0e30,
        f32::INFINITY,
    ];
    for pair in values.windows(2) {
        let smaller = read(pair[0]);
        let greater = read(pair[1]);
        assert!(smaller.rank < greater.rank);
    }
}

#[test]
fn rank_of_given_bits() {
    assert_eq!(Number::from_bits(0, String::new()).rank, 0);
    assert_eq!(Number::from_bits(0x3f80_0000, String::new()).rank, 0x3f80_0000);
    assert_eq!(Number::from_bits(0xbf80_0000, String::new()).rank, -0x3f80_0000);
    assert_eq!(Number::from_bits(0x7f80_0000, String::new()).rank, 0x7f80_0000);
    assert_eq!(Number::from_bits(0xff80_0000, String::new()).rank, -0x7f80_0000);
}

#[test]
fn the_two_zeros_have_one_rank() {
    assert_eq!(read(0.0).rank, read(-0.0).rank);
    assert_eq!(read(-0.0).rank, 0);
}

#[test]
fn what_is_not_a_number_ranks_above_every_number() {
    assert_eq!(read(f32::NAN).rank, 0x7f80_0001);
    assert_eq!(Number::from_bits(0x7f80_0001, String::new()).rank, 0x7f80_0001);
    assert_eq!(Number::from_bits(0x7fc0_0000, String::new()).rank, 0x7f80_0001);
    assert_eq!(Number::from_bits(0xff80_0001, String::new()).rank, 0x7f80_0001);
    assert_eq!(Number::from_bits(0xffff_ffff, String::new()).rank, 0x7f80_0001);
    assert!(read(f32::INFINITY).rank < read(f32::NAN).rank);
}

#[test]
fn what_is_not_a_number_is_a_sample_that_is_sorted_last() {
    let samples: Vec<Sample> = [(f32::NAN, "b"), (1.0, "a"), (2.0, "a"), (f32::NAN, "b")]
        .iter()
        .enumerate()
        .map(|(row, (value, class))| Sample {
            value: read(*value),
            class: class.to_string(),
            row,
        })
        .collect();
    let intervals = quantize(&samples, 1);
    assert_eq!(intervals.len(), 2);
    assert_eq!(intervals[0].show(), "< NaN");
    assert_eq!(intervals[1].show(), ">= NaN");
    assert_eq!(interval_of(&intervals, &read(1.0e30)).unwrap().class(), "a");
    assert_eq!(interval_of(&intervals, &read(f32::NAN)).unwrap().class(), "b");
}

#[test]
fn number_keeps_its_text() {
    let number = read(72.5);
    assert_eq!(number.text, "72.5");
    assert_eq!(read(71.0).text, "71");
}

#[test]
fn intervals_are_described_with_the_text_of_the_numbers() {
    let samples: Vec<Sample> = [(1.5f32, "a"), (2.0, "a"), (2.25, "b"), (-3.0, "a"), (10.0, "b")]
        .iter()
        .enumerate()
        .map(|(row, (value, class))| Sample {
            value: read(*value),
            class: class.to_string(),
            row,
        })
        .collect();
    let intervals = quantize(&samples, 1);
    assert_eq!(intervals.len(), 2);
    assert_eq!(intervals[0].show(), "< 2.25");
    assert_eq!(intervals[1].show(), ">= 2.25");
    assert_eq!(interval_of(&intervals, &read(2.2)).unwrap().show(), "< 2.25");
    assert_eq!(interval_of(&intervals, &read(2.25)).unwrap().show(), ">= 2.25");
    assert_eq!(interval_of(&intervals, &read(-1.0e9)).unwrap().show(), "< 2.25");
}

#[test]
fn shapes_are_held_against_the_largest_size() {
    assert!(shape_is_small(0, 0));
    assert!(shape_is_small(100, 2));
    assert!(shape_is_small(0, usize::MAX / 2));
    assert!(shape_is_small(isize::MAX as usize, 1));
    assert!(shape_is_small(isize::MAX as usize, 0));
    assert!(!shape_is_small(isize::MAX as usize, 2));
    assert!(!shape_is_small(usize::MAX, 1));
    assert!(!shape_is_small(usize::MAX, usize::MAX));
}
