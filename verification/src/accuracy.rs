//! The accuracy of a rule: how many of the examples it predicts correctly.

use core::cmp::Ordering;
use vstd::prelude::*;
use vstd::std_specs::cmp::PartialEqSpecImpl;
use vstd::std_specs::cmp::PartialOrdSpecImpl;

verus! {

/// The share of correct predictions: `correct` out of `total` examples. With
/// no example at all the accuracy is zero.
#[derive(Debug, Clone, Copy)]
pub struct Accuracy {
    pub correct: usize,
    pub total: usize,
}

impl Accuracy {
    /// The numerator of the accuracy once it and `other` are brought to one
    /// denominator. An accuracy without examples counts as zero.
    pub open spec fn scaled(self, other: Accuracy) -> int {
        if self.total == 0 {
            0
        } else if other.total == 0 {
            self.correct as int
        } else {
            self.correct * other.total
        }
    }

    /// Whether the accuracy is greater than `other`.
    pub open spec fn exceeds(self, other: Accuracy) -> bool {
        self.scaled(other) > other.scaled(self)
    }

    fn weight(&self, other: &Accuracy) -> (w: u128)
        ensures
            w == self.scaled(*other),
    {
        if self.total == 0 {
            0
        } else if other.total == 0 {
            self.correct as u128
        } else {
            assert(self.correct * other.total <= u128::MAX) by (nonlinear_arith)
                requires
                    self.correct <= u64::MAX,
                    other.total <= u64::MAX,
            ;
            (self.correct as u128) * (other.total as u128)
        }
    }
}

impl PartialEq for Accuracy {
    fn eq(&self, other: &Self) -> (same: bool) {
        self.weight(other) == other.weight(self)
    }
}

impl PartialEqSpecImpl for Accuracy {
    open spec fn obeys_eq_spec() -> bool {
        true
    }

    open spec fn eq_spec(&self, other: &Self) -> bool {
        self.scaled(*other) == other.scaled(*self)
    }
}

impl PartialOrd for Accuracy {
    fn partial_cmp(&self, other: &Self) -> (order: Option<Ordering>) {
        let mine = self.weight(other);
        let theirs = other.weight(self);
        if mine < theirs {
            Some(Ordering::Less)
        } else if mine > theirs {
            Some(Ordering::Greater)
        } else {
            Some(Ordering::Equal)
        }
    }
}

impl PartialOrdSpecImpl for Accuracy {
    open spec fn obeys_partial_cmp_spec() -> bool {
        true
    }

    open spec fn partial_cmp_spec(&self, other: &Self) -> Option<Ordering> {
        if self.scaled(*other) < other.scaled(*self) {
            Some(Ordering::Less)
        } else if self.scaled(*other) > other.scaled(*self) {
            Some(Ordering::Greater)
        } else {
            Some(Ordering::Equal)
        }
    }
}

} // verus!
