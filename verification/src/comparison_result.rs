//! The result of comparing two values, as the platform's frameworks report
//! it.
use core::cmp::Ordering;
use vstd::prelude::*;

verus! {

/// How the first of two compared values stands to the second.
#[derive(Clone, Copy, Debug, PartialEq, Eq, Hash, Structural)]
pub enum NSComparisonResult {
    /// The first value is smaller.
    Ascending,
    /// The two values are the same.
    Same,
    /// The first value is greater.
    Descending,
}

impl Default for NSComparisonResult {
    fn default() -> (r: Self)
        ensures
            r == NSComparisonResult::Same,
    {
        NSComparisonResult::Same
    }
}

impl NSComparisonResult {
    /// The comparison result for `order`.
    pub fn from_ordering(order: Ordering) -> (r: Self)
        ensures
            r == NSComparisonResult::of_ordering(order),
    {
        match order {
            Ordering::Less => NSComparisonResult::Ascending,
            Ordering::Equal => NSComparisonResult::Same,
            Ordering::Greater => NSComparisonResult::Descending,
        }
    }

    /// The ordering that this comparison result stands for.
    pub fn to_ordering(self) -> (order: Ordering)
        ensures
            NSComparisonResult::of_ordering(order) == self,
    {
        match self {
            NSComparisonResult::Ascending => Ordering::Less,
            NSComparisonResult::Same => Ordering::Equal,
            NSComparisonResult::Descending => Ordering::Greater,
        }
    }

    /// The comparison result for `order`: ascending for less, same for
    /// equal, descending for greater.
    pub open spec fn of_ordering(order: Ordering) -> Self {
        match order {
            Ordering::Less => NSComparisonResult::Ascending,
            Ordering::Equal => NSComparisonResult::Same,
            Ordering::Greater => NSComparisonResult::Descending,
        }
    }
}

} // verus!
