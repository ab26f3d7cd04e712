//! Comparing items by their weight/profit ratio with `<`, `<=`, `>` and `>=`.

use std::cmp::Ordering;
use vstd::prelude::*;
use vstd::std_specs::cmp::PartialOrdSpecImpl;
use crate::knapsack::item::Item;
use crate::knapsack::order::ratio_lt;
use crate::ratio::fraction_less;

verus! {

impl PartialOrd for Item {
    /// Compares the weight/profit ratios of two items: the item of the lower
    /// ratio is the lesser one. Items of equal ratio compare as equal, even
    /// where they differ. An item of profit zero has no ratio and compares
    /// with no item.
    fn partial_cmp(&self, other: &Item) -> (order: Option<Ordering>) {
        if self.profit == 0 || other.profit == 0 {
            None
        } else if fraction_less(self.weight, self.profit, other.weight, other.profit) {
            Some(Ordering::Less)
        } else if fraction_less(other.weight, other.profit, self.weight, self.profit) {
            Some(Ordering::Greater)
        } else {
            Some(Ordering::Equal)
        }
    }
}

impl PartialOrdSpecImpl for Item {
    open spec fn obeys_partial_cmp_spec() -> bool {
        true
    }

    open spec fn partial_cmp_spec(&self, other: &Item) -> Option<Ordering> {
        if self.profit == 0 || other.profit == 0 {
            None
        } else if ratio_lt(*self, *other) {
            Some(Ordering::Less)
        } else if ratio_lt(*other, *self) {
            Some(Ordering::Greater)
        } else {
            Some(Ordering::Equal)
        }
    }
}

} // verus!
