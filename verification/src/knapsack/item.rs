//! The item model shared by all knapsack solvers.

use vstd::prelude::*;
use crate::knapsack::selection::{items_of, lemma_totals_prefix, total_profit};
use crate::ratio::Ratio;

verus! {

/// An object that can be put into a knapsack.
#[derive(PartialEq, Eq, Structural, Clone, Debug)]
pub struct Item {
    /// A unique identifier.
    pub id: usize,
    /// How much benefit this item provides.
    pub profit: u64,
    /// How much room this item takes up.
    pub weight: u64,
}

impl Item {
    /// Calculates `weight / profit`, which tells how much value the item has:
    /// the lower the ratio, the more profit it gives for its weight. An item
    /// of profit zero has no ratio.
    pub fn weight_profit_ratio(&self) -> (ratio: Result<Ratio, KnapsackError>)
        ensures
            self.profit == 0 ==> ratio == Err::<Ratio, KnapsackError>(
                KnapsackError::IncomparableItem,
            ),
            self.profit > 0 ==> ratio == Ok::<Ratio, KnapsackError>(
                Ratio::reduced(self.weight as nat, self.profit as nat),
            ),
    {
        match Ratio::new(self.weight as u128, self.profit as u128) {
            Some(ratio) => Ok(ratio),
            None => Err(KnapsackError::IncomparableItem),
        }
    }
}

/// Why a solver turned its input down.
#[derive(PartialEq, Eq, Structural, Clone, Copy, Debug)]
pub enum KnapsackError {
    /// Some item has profit zero, so its weight/profit ratio is undefined and
    /// the item cannot be placed in the ratio order.
    IncomparableItem,
}

/// Calculates the total profit of all items.
pub fn knapsack_profit(items: &[&Item]) -> (profit: u64)
    requires
        total_profit(items_of(items@)) <= u64::MAX,
    ensures
        profit == total_profit(items_of(items@)),
{
    let ghost all = items_of(items@);
    let mut profit: u64 = 0;
    let mut i: usize = 0;
    while i < items.len()
        invariant
            i <= items.len(),
            all == items_of(items@),
            total_profit(all) <= u64::MAX,
            profit == total_profit(all.take(i as int)),
        decreases items.len() - i,
    {
        proof {
            assert(all.take(i + 1).drop_last() =~= all.take(i as int));
            lemma_totals_prefix(all, i + 1);
        }
        profit = profit + items[i].profit;
        i = i + 1;
    }
    proof {
        assert(all.take(i as int) =~= all);
    }
    profit
}

} // verus!
