//! The exact dynamic-programming solver for the 0/1 knapsack problem.

use vstd::prelude::*;
use vstd::seq_lib::{to_multiset_build, to_multiset_contains, to_multiset_remove};
use crate::knapsack::item::Item;
use crate::knapsack::selection::{
    copy_refs, is_selection_of, items_of, lemma_total_profit_bound, lemma_totals_remove,
    total_profit, total_weight,
};

verus! {

/// The best profit that the items allow within `capacity`, by the classical
/// recurrence on the last item: leave it out, or, where it fits, take it and
/// fill what is left of the capacity from the items before it.
pub open spec fn optimal_profit(items: Seq<Item>, capacity: nat) -> nat
    decreases items.len(),
{
    if items.len() == 0 {
        0
    } else {
        let item = items.last();
        let without = optimal_profit(items.drop_last(), capacity);
        if item.weight <= capacity {
            let with = item.profit as nat + optimal_profit(
                items.drop_last(),
                (capacity - item.weight) as nat,
            );
            if with > without {
                with
            } else {
                without
            }
        } else {
            without
        }
    }
}

/// The selection that dynamic programming keeps for `items` and `capacity`.
/// The last item joins the selection kept for the items before it and the
/// capacity it leaves over only where that strictly improves on the selection
/// kept without it; chosen items stand in the order of `items`.
pub open spec fn dp_selection(items: Seq<Item>, capacity: nat) -> Seq<Item>
    decreases items.len(),
{
    if items.len() == 0 {
        Seq::empty()
    } else {
        let item = items.last();
        let without = dp_selection(items.drop_last(), capacity);
        if item.weight <= capacity {
            let with = dp_selection(items.drop_last(), (capacity - item.weight) as nat).push(item);
            if total_profit(with) > total_profit(without) {
                with
            } else {
                without
            }
        } else {
            without
        }
    }
}

/// The kept selection realises the optimal profit, stays within the capacity
/// and holds at most as many items as it was chosen from.
pub proof fn lemma_dp_selection(items: Seq<Item>, capacity: nat)
    ensures
        total_profit(dp_selection(items, capacity)) == optimal_profit(items, capacity),
        total_weight(dp_selection(items, capacity)) <= capacity,
        dp_selection(items, capacity).len() <= items.len(),
    decreases items.len(),
{
    if items.len() > 0 {
        let item = items.last();
        lemma_dp_selection(items.drop_last(), capacity);
        if item.weight <= capacity {
            let rest = dp_selection(items.drop_last(), (capacity - item.weight) as nat);
            lemma_dp_selection(items.drop_last(), (capacity - item.weight) as nat);
            assert(rest.push(item).drop_last() =~= rest);
        }
    }
}

/// The kept selection is a 0/1 selection of the items.
pub proof fn lemma_dp_selection_is_selection(items: Seq<Item>, capacity: nat)
    ensures
        is_selection_of(dp_selection(items, capacity), items),
    decreases items.len(),
{
    let kept = dp_selection(items, capacity);
    if items.len() == 0 {
        assert forall|v: Item| kept.to_multiset().count(v) <= items.to_multiset().count(v) by {
            to_multiset_contains(kept, v);
        }
    } else {
        let item = items.last();
        let rest = items.drop_last();
        assert(items =~= rest.push(item));
        to_multiset_build(rest, item);
        lemma_dp_selection_is_selection(rest, capacity);
        let without = dp_selection(rest, capacity);
        if item.weight <= capacity {
            let before = dp_selection(rest, (capacity - item.weight) as nat);
            lemma_dp_selection_is_selection(rest, (capacity - item.weight) as nat);
            to_multiset_build(before, item);
            assert forall|v: Item| kept.to_multiset().count(v) <= items.to_multiset().count(v) by {
                assert(before.to_multiset().count(v) <= rest.to_multiset().count(v));
                assert(without.to_multiset().count(v) <= rest.to_multiset().count(v));
            }
        } else {
            assert forall|v: Item| kept.to_multiset().count(v) <= items.to_multiset().count(v) by {
                assert(without.to_multiset().count(v) <= rest.to_multiset().count(v));
            }
        }
    }
}

/// No 0/1 selection of the items within the capacity earns more than the
/// optimal profit.
pub proof fn lemma_optimal_profit_dominates(items: Seq<Item>, capacity: nat, selection: Seq<Item>)
    requires
        is_selection_of(selection, items),
        total_weight(selection) <= capacity,
    ensures
        total_profit(selection) <= optimal_profit(items, capacity),
    decreases items.len(),
{
    if items.len() == 0 {
        if selection.len() > 0 {
            to_multiset_contains(selection, selection[0]);
            to_multiset_contains(items, selection[0]);
            assert(selection.contains(selection[0]));
            assert(false);
        }
    } else {
        let item = items.last();
        let rest = items.drop_last();
        assert(items =~= rest.push(item));
        to_multiset_build(rest, item);
        if selection.to_multiset().count(item) <= rest.to_multiset().count(item) {
            assert(is_selection_of(selection, rest)) by {
                assert forall|v: Item|
                    selection.to_multiset().count(v) <= rest.to_multiset().count(v) by {
                    assert(selection.to_multiset().count(v) <= items.to_multiset().count(v));
                }
            }
            lemma_optimal_profit_dominates(rest, capacity, selection);
        } else {
            to_multiset_contains(selection, item);
            assert(selection.contains(item));
            let i = choose|i: int| 0 <= i < selection.len() && selection[i] == item;
            let others = selection.remove(i);
            to_multiset_remove(selection, i);
            lemma_totals_remove(selection, i);
            assert(is_selection_of(others, rest)) by {
                assert forall|v: Item|
                    others.to_multiset().count(v) <= rest.to_multiset().count(v) by {
                    assert(selection.to_multiset().count(v) <= items.to_multiset().count(v));
                }
            }
            lemma_optimal_profit_dominates(rest, (capacity - item.weight) as nat, others);
        }
    }
}

/// More capacity never lowers the optimal profit: each row of the table is
/// non-decreasing along the capacity.
pub proof fn lemma_optimal_profit_monotone(items: Seq<Item>, smaller: nat, larger: nat)
    requires
        smaller <= larger,
    ensures
        optimal_profit(items, smaller) <= optimal_profit(items, larger),
    decreases items.len(),
{
    if items.len() > 0 {
        let item = items.last();
        lemma_optimal_profit_monotone(items.drop_last(), smaller, larger);
        if item.weight <= smaller {
            lemma_optimal_profit_monotone(
                items.drop_last(),
                (smaller - item.weight) as nat,
                (larger - item.weight) as nat,
            );
        }
    }
}

/// Calculates the optimal profit of the 0/1 knapsack problem with dynamic
/// programming, without the selection that earns it: one row of profits,
/// indexed by the weight limit `0..=weight_capacity`, is rewritten in place
/// for each item, from the largest limit down.
pub fn dynamic_programming_profit(items: &[Item], weight_capacity: u64) -> (profit: u128)
    requires
        weight_capacity < usize::MAX,
    ensures
        profit == optimal_profit(items@, weight_capacity as nat),
{
    let width: usize = weight_capacity as usize + 1;
    let mut profits: Vec<u128> = Vec::new();
    while profits.len() < width
        invariant
            profits.len() <= width,
            forall|j: int| 0 <= j < profits.len() ==> #[trigger] profits[j] == 0,
        decreases width - profits.len(),
    {
        profits.push(0);
    }
    let mut n: usize = 0;
    assert(items@.take(0) =~= Seq::<Item>::empty());
    while n < items.len()
        invariant
            n <= items.len(),
            width == weight_capacity + 1,
            profits.len() == width,
            forall|j: int|
                0 <= j < width ==> #[trigger] profits[j] == optimal_profit(
                    items@.take(n as int),
                    j as nat,
                ),
        decreases items.len() - n,
    {
        let item: &Item = &items[n];
        let ghost before = items@.take(n as int);
        let ghost after = items@.take(n + 1);
        proof {
            assert(after.drop_last() =~= before);
            assert(after.last() == *item);
        }
        let mut index: usize = width;
        while index > 0
            invariant
                index <= width,
                n < items.len(),
                width == weight_capacity + 1,
                profits.len() == width,
                before == items@.take(n as int),
                after == items@.take(n + 1),
                after.drop_last() == before,
                after.last() == *item,
                forall|j: int|
                    0 <= j < index ==> #[trigger] profits[j] == optimal_profit(before, j as nat),
                forall|j: int|
                    index <= j < width ==> #[trigger] profits[j] == optimal_profit(
                        after,
                        j as nat,
                    ),
            decreases index,
        {
            index = index - 1;
            if item.weight <= index as u64 {
                let remaining: usize = index - item.weight as usize;
                proof {
                    lemma_optimal_profit_bound(before, remaining as nat);
                    assert(n * u64::MAX + u64::MAX <= usize::MAX * u64::MAX) by (nonlinear_arith)
                        requires
                            n < usize::MAX,
                    ;
                }
                let with: u128 = item.profit as u128 + profits[remaining];
                if with > profits[index] {
                    profits.set(index, with);
                }
            }
        }
        n = n + 1;
    }
    proof {
        assert(items@.take(n as int) =~= items@);
    }
    profits[weight_capacity as usize]
}

/// The optimal profit is at most `u64::MAX` for each item.
pub proof fn lemma_optimal_profit_bound(items: Seq<Item>, capacity: nat)
    ensures
        optimal_profit(items, capacity) <= items.len() * u64::MAX,
{
    lemma_dp_selection(items, capacity);
    lemma_total_profit_bound(dp_selection(items, capacity));
    assert(dp_selection(items, capacity).len() * u64::MAX <= items.len() * u64::MAX)
        by (nonlinear_arith)
        requires
            dp_selection(items, capacity).len() <= items.len(),
    ;
}

/// Solves the 0/1 knapsack problem with dynamic programming. The returned
/// selection is optimal: no selection of the items within the capacity earns
/// more (see `lemma_optimal_profit_dominates`).
///
/// One row of selections, indexed by the weight limit `0..=weight_capacity`,
/// is rewritten in place for each item, from the largest limit down.
pub fn dynamic_programming<'a>(items: &'a [Item], weight_capacity: u64) -> (knapsack: Vec<&'a Item>)
    requires
        weight_capacity < usize::MAX,
    ensures
        items_of(knapsack@) == dp_selection(items@, weight_capacity as nat),
        total_weight(items_of(knapsack@)) <= weight_capacity,
        is_selection_of(items_of(knapsack@), items@),
        total_profit(items_of(knapsack@)) == optimal_profit(items@, weight_capacity as nat),
        forall|selection: Seq<Item>| #[trigger]
            is_selection_of(selection, items@) && total_weight(selection) <= weight_capacity
                ==> total_profit(selection) <= total_profit(items_of(knapsack@)),
{
    let width: usize = weight_capacity as usize + 1;
    // row[w] holds the selection kept for the items seen so far and weight
    // limit w; profits[w] holds its profit.
    let mut row: Vec<Vec<&'a Item>> = Vec::new();
    let mut profits: Vec<u128> = Vec::new();
    let mut w: usize = 0;
    while w < width
        invariant
            w <= width,
            row.len() == w,
            profits.len() == w,
            forall|j: int| 0 <= j < w ==> (#[trigger] row[j])@.len() == 0,
            forall|j: int| 0 <= j < w ==> #[trigger] profits[j] == 0,
        decreases width - w,
    {
        row.push(Vec::new());
        profits.push(0);
        w = w + 1;
    }
    let mut n: usize = 0;
    assert forall|j: int| 0 <= j < width implies items_of(#[trigger] row[j]@) == dp_selection(
        items@.take(0),
        j as nat,
    ) by {
        assert(items_of(row[j]@) =~= Seq::<Item>::empty());
    }
    while n < items.len()
        invariant
            n <= items.len(),
            width == weight_capacity + 1,
            row.len() == width,
            profits.len() == width,
            forall|j: int|
                0 <= j < width ==> items_of(#[trigger] row[j]@) == dp_selection(
                    items@.take(n as int),
                    j as nat,
                ),
            forall|j: int|
                0 <= j < width ==> #[trigger] profits[j] == optimal_profit(
                    items@.take(n as int),
                    j as nat,
                ),
        decreases items.len() - n,
    {
        let item: &'a Item = &items[n];
        let ghost before = items@.take(n as int);
        let ghost after = items@.take(n + 1);
        proof {
            assert(after.drop_last() =~= before);
            assert(after.last() == *item);
        }
        let mut index: usize = width;
        while index > 0
            invariant
                index <= width,
                n < items.len(),
                width == weight_capacity + 1,
                row.len() == width,
                profits.len() == width,
                before == items@.take(n as int),
                after == items@.take(n + 1),
                after.drop_last() == before,
                after.last() == *item,
                forall|j: int|
                    0 <= j < index ==> items_of(#[trigger] row[j]@) == dp_selection(
                        before,
                        j as nat,
                    ),
                forall|j: int|
                    0 <= j < index ==> #[trigger] profits[j] == optimal_profit(before, j as nat),
                forall|j: int|
                    index <= j < width ==> items_of(#[trigger] row[j]@) == dp_selection(
                        after,
                        j as nat,
                    ),
                forall|j: int|
                    index <= j < width ==> #[trigger] profits[j] == optimal_profit(
                        after,
                        j as nat,
                    ),
            decreases index,
        {
            index = index - 1;
            // Can the knapsack with this weight limit afford the item?
            if item.weight <= index as u64 {
                let remaining: usize = index - item.weight as usize;
                proof {
                    lemma_dp_selection(before, remaining as nat);
                    lemma_dp_selection(before, index as nat);
                    lemma_optimal_profit_bound(before, remaining as nat);
                    assert(n * u64::MAX + u64::MAX <= usize::MAX * u64::MAX) by (nonlinear_arith)
                        requires
                            n < usize::MAX,
                    ;
                }
                let new_profit: u128 = item.profit as u128 + profits[remaining];
                if new_profit > profits[index] {
                    let mut new_knapsack = copy_refs(&row[remaining]);
                    new_knapsack.push(item);
                    proof {
                        let rest = dp_selection(before, remaining as nat);
                        assert(items_of(new_knapsack@) =~= rest.push(*item));
                        assert(rest.push(*item).drop_last() =~= rest);
                    }
                    row.set(index, new_knapsack);
                    profits.set(index, new_profit);
                } else {
                    proof {
                        let rest = dp_selection(before, remaining as nat);
                        assert(rest.push(*item).drop_last() =~= rest);
                    }
                }
            }
        }
        n = n + 1;
    }
    proof {
        assert(items@.take(n as int) =~= items@);
        lemma_dp_selection(items@, weight_capacity as nat);
        lemma_dp_selection_is_selection(items@, weight_capacity as nat);
        assert forall|selection: Seq<Item>| #[trigger]
            is_selection_of(selection, items@) && total_weight(selection)
                <= weight_capacity implies total_profit(selection) <= optimal_profit(
            items@,
            weight_capacity as nat,
        ) by {
            lemma_optimal_profit_dominates(items@, weight_capacity as nat, selection);
        }
    }
    let mut knapsack: Vec<&'a Item> = Vec::new();
    let last = row.pop();
    match last {
        Some(selection) => {
            knapsack = selection;
        },
        None => {},
    }
    knapsack
}

} // verus!
