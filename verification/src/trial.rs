//! Learning a rule on one part of a dataset and testing it on the rest.

use crate::accuracy::Accuracy;
use crate::dataset::{shape_fits, Dataset};
use crate::oner::{accuracy_of, discover, evaluate, is_best_rule, Rule};
use vstd::prelude::*;

verus! {

/// The outcome of one experiment: the attribute that was picked, its rule,
/// the accuracy of the rule on the examples that it was learnt from, and its
/// accuracy on the examples that were kept back.
#[derive(Debug)]
pub struct Trial {
    pub attribute_index: usize,
    pub rule: Rule,
    pub training_accuracy: Accuracy,
    pub test_accuracy: Accuracy,
}

/// Whether the trial holds the best rule of `training` and the accuracy of
/// that rule on `testing`.
pub open spec fn is_trial_of(trial: Trial, training: Dataset, testing: Dataset) -> bool {
    &&& is_best_rule(training, trial.attribute_index, trial.rule, trial.training_accuracy)
    &&& trial.test_accuracy == accuracy_of(
        trial.rule.cases@,
        trial.attribute_index as int,
        testing,
    )
}

/// Whether the trial was made on some division of the dataset that gives the
/// first `left_count` examples of a shuffle to the training data and the
/// others to the test data.
pub open spec fn is_trial_on(trial: Trial, dataset: Dataset, left_count: usize) -> bool {
    exists|order: Seq<usize>, training: Dataset, testing: Dataset|
        {
            &&& #[trigger] dataset.is_divided(order, left_count, training, testing)
            &&& is_trial_of(trial, training, testing)
        }
}

/// Learns the best rule of `training` and tests it on `testing`. There is no
/// trial where no rule can be learnt: without attributes or without examples
/// to learn from.
pub fn run_trial(training: &Dataset, testing: &Dataset) -> (trial: Option<Trial>)
    requires
        training.wf(),
        testing.wf(),
        testing.rows().len() > 0 ==> training.width() == testing.width(),
    ensures
        trial is None <==> training.rows().len() == 0 || training.width() == 0,
        trial matches Some(trial) ==> is_trial_of(trial, *training, *testing),
{
    match discover(training) {
        Some((attribute_index, rule, training_accuracy)) => {
            let test_accuracy = evaluate(&rule, testing);
            Some(Trial { attribute_index, rule, training_accuracy, test_accuracy })
        },
        None => None,
    }
}

/// Repeats the experiment `repeats` times, each time on a new division of the
/// dataset at random into `left_count` examples to learn from and the others
/// to test on. There are no more examples than a `u32` counts.
pub fn run_many(
    rng: &mut rand::rngs::StdRng,
    dataset: &Dataset,
    left_count: usize,
    repeats: usize,
) -> (trials: Vec<Trial>)
    requires
        dataset.wf(),
        dataset.rows().len() <= u32::MAX,
        shape_fits(dataset.rows().len() as int, dataset.width() as int),
        left_count <= dataset.rows().len(),
    ensures
        trials.len() == if left_count == 0 || dataset.width() == 0 {
            0
        } else {
            repeats
        },
        forall|i: int|
            0 <= i < trials.len() ==> is_trial_on(#[trigger] trials[i], *dataset, left_count),
{
    let mut trials: Vec<Trial> = Vec::new();
    let mut done: usize = 0;
    while done < repeats
        invariant
            done <= repeats,
            dataset.wf(),
            dataset.rows().len() <= u32::MAX,
            shape_fits(dataset.rows().len() as int, dataset.width() as int),
            left_count <= dataset.rows().len(),
            trials.len() == if left_count == 0 || dataset.width() == 0 {
                0
            } else {
                done
            },
            forall|i: int|
                0 <= i < trials.len() ==> is_trial_on(#[trigger] trials[i], *dataset, left_count),
        decreases repeats - done,
    {
        let (training, testing) = dataset.split(rng, left_count);
        proof {
            let order = choose|order: Seq<usize>|
                dataset.is_divided(order, left_count, training, testing);
            assert(order.take(left_count as int).len() == left_count);
            assert(training.attribute_names@ == testing.attribute_names@);
        }
        match run_trial(&training, &testing) {
            Some(trial) => {
                proof {
                    let order = choose|order: Seq<usize>|
                        dataset.is_divided(order, left_count, training, testing);
                    assert(dataset.is_divided(order, left_count, training, testing));
                    assert(is_trial_of(trial, training, testing));
                }
                trials.push(trial);
            },
            None => {},
        }
        done = done + 1;
    }
    trials
}

} // verus!
