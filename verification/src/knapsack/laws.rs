//! How the solvers relate to each other on one instance.

use vstd::prelude::*;
use vstd::seq_lib::to_multiset_contains;
use crate::knapsack::bound::{
    is_fractional_selection, lemma_fractional_pack_is_optimal, lemma_relaxation_dominates,
    lemma_weightless_fit_sorted, scaled_profit, scaled_weight, weightless_fit,
};
use crate::knapsack::branch_bound::{lemma_branch_and_bound_is_optimal, lemma_search_result, search};
use crate::knapsack::dynamic::{dp_selection, lemma_optimal_profit_dominates, optimal_profit};
use crate::knapsack::fractional::{
    fractional_pack, lemma_fractional_pack_totals, relaxation_bound, total_effective_profit,
};
use crate::knapsack::greedy_k::{greedy_k_selection, lemma_greedy_k_selection};
use crate::knapsack::integer::{greedy_pack, lemma_greedy_pack};
use crate::knapsack::item::Item;
use crate::knapsack::order::{
    all_comparable, distinct_ids, lemma_ratio_order_is_unique, lemma_ratio_sorted, ratio_sorted,
};
use crate::knapsack::selection::total_profit;
use crate::ratio::{Ratio, Rational};

verus! {

/// On one instance the fractional greedy solver earns at least what the
/// integer greedy heuristic earns: the continuous relaxation dominates the
/// greedy selection of whole items.
pub proof fn lemma_fractional_dominates_integer_greedy(items: Seq<Item>, capacity: nat)
    requires
        all_comparable(items),
        capacity <= u64::MAX,
    ensures
        total_profit(greedy_pack(ratio_sorted(items), capacity)) <= relaxation_bound(
            ratio_sorted(items),
            capacity,
        ),
        Rational::from_int(total_profit(greedy_pack(ratio_sorted(items), capacity)) as int).le(
            total_effective_profit(fractional_pack(ratio_sorted(items), capacity)),
        ),
{
    let sorted = ratio_sorted(items);
    let greedy = greedy_pack(sorted, capacity);
    let relaxed = total_effective_profit(fractional_pack(sorted, capacity));
    lemma_ratio_sorted(items);
    lemma_greedy_pack(sorted, capacity);
    lemma_fractional_pack_totals(sorted, capacity);
    if capacity > 0 {
        lemma_relaxation_dominates(sorted, capacity, greedy);
    }
    assert(total_profit(greedy) * relaxed.den <= relaxed.num * 1) by (nonlinear_arith)
        requires
            total_profit(greedy) <= relaxation_bound(sorted, capacity),
            relaxation_bound(sorted, capacity) * relaxed.den <= relaxed.num * 1,
            relaxed.den > 0,
    ;
}

/// The fractional greedy solver is optimal for the continuous relaxation:
/// whatever portions `amounts[i] / scale` of the items in ratio order are
/// taken, if they weigh no more than the capacity they earn no more than the
/// solver does, provided there is capacity or every item has weight.
pub proof fn lemma_fractional_greedy_is_optimal(
    items: Seq<Item>,
    capacity: nat,
    amounts: Seq<nat>,
    scale: nat,
)
    requires
        all_comparable(items),
        weightless_fit(items, capacity),
        capacity <= u64::MAX,
        is_fractional_selection(ratio_sorted(items), amounts, scale),
        scaled_weight(ratio_sorted(items), amounts) <= capacity * scale,
    ensures
        (Rational { num: scaled_profit(ratio_sorted(items), amounts) as int, den: scale as int }).le(
            total_effective_profit(fractional_pack(ratio_sorted(items), capacity)),
        ),
{
    lemma_ratio_sorted(items);
    lemma_weightless_fit_sorted(items, capacity);
    lemma_fractional_pack_is_optimal(ratio_sorted(items), capacity, amounts, scale);
}

/// On one instance no heuristic earns more than dynamic programming, and
/// neither does branch and bound. Where there is capacity, or every item has
/// weight, branch and bound earns exactly what dynamic programming earns:
/// both are exact.
pub proof fn lemma_exact_dominates_heuristics(items: Seq<Item>, capacity: nat, k: nat)
    requires
        all_comparable(items),
        items.len() <= usize::MAX,
    ensures
        total_profit(greedy_pack(ratio_sorted(items), capacity)) <= optimal_profit(
            items,
            capacity,
        ),
        total_profit(greedy_k_selection(items, capacity, k)) <= optimal_profit(items, capacity),
        total_profit(search(ratio_sorted(items), capacity, Seq::empty(), Seq::empty()))
            <= optimal_profit(items, capacity),
        weightless_fit(items, capacity) ==> total_profit(
            search(ratio_sorted(items), capacity, Seq::empty(), Seq::empty()),
        ) == optimal_profit(items, capacity),
{
    let sorted = ratio_sorted(items);
    lemma_ratio_sorted(items);
    lemma_greedy_pack(sorted, capacity);
    lemma_optimal_profit_dominates(items, capacity, greedy_pack(sorted, capacity));
    lemma_greedy_k_selection(items, capacity, k);
    lemma_optimal_profit_dominates(items, capacity, greedy_k_selection(items, capacity, k));
    lemma_search_result(items, capacity);
    lemma_optimal_profit_dominates(
        items,
        capacity,
        search(sorted, capacity, Seq::empty(), Seq::empty()),
    );
    if weightless_fit(items, capacity) {
        lemma_branch_and_bound_is_optimal(items, capacity);
    }
}

/// Running a solver for whole items again on the same input gives the same
/// selection: what each solver returns is a function of its input alone.
pub proof fn lemma_rerun_selects_the_same(
    items: Seq<Item>,
    capacity: nat,
    k: nat,
    first_run: Seq<Item>,
    second_run: Seq<Item>,
)
    requires
        ({
            let greedy = greedy_pack(ratio_sorted(items), capacity);
            let exact = dp_selection(items, capacity);
            let fixed = greedy_k_selection(items, capacity, k);
            let searched = search(ratio_sorted(items), capacity, Seq::empty(), Seq::empty());
            ||| first_run == greedy && second_run == greedy
            ||| first_run == exact && second_run == exact
            ||| first_run == fixed && second_run == fixed
            ||| first_run == searched && second_run == searched
        }),
    ensures
        first_run == second_run,
{
}

/// Running the fractional greedy solver again on the same input packs the
/// same portions of the same items.
pub proof fn lemma_rerun_packs_the_same(
    items: Seq<Item>,
    capacity: nat,
    first_run: Seq<(Item, Ratio)>,
    second_run: Seq<(Item, Ratio)>,
)
    requires
        first_run == fractional_pack(ratio_sorted(items), capacity),
        second_run == fractional_pack(ratio_sorted(items), capacity),
    ensures
        first_run == second_run,
{
}

/// For items with distinct ids the solvers that sort return the same,
/// whatever order the items come in: the ratio order depends on the items
/// alone.
pub proof fn lemma_input_order_does_not_matter(
    items: Seq<Item>,
    rearranged: Seq<Item>,
    capacity: nat,
)
    requires
        all_comparable(items),
        distinct_ids(items),
        rearranged.to_multiset() == items.to_multiset(),
    ensures
        all_comparable(rearranged),
        ratio_sorted(rearranged) == ratio_sorted(items),
        greedy_pack(ratio_sorted(rearranged), capacity) == greedy_pack(
            ratio_sorted(items),
            capacity,
        ),
        fractional_pack(ratio_sorted(rearranged), capacity) == fractional_pack(
            ratio_sorted(items),
            capacity,
        ),
        search(ratio_sorted(rearranged), capacity, Seq::empty(), Seq::empty()) == search(
            ratio_sorted(items),
            capacity,
            Seq::empty(),
            Seq::empty(),
        ),
{
    assert(all_comparable(rearranged)) by {
        assert forall|i: int| 0 <= i < rearranged.len() implies (#[trigger] rearranged[i]).profit
            > 0 by {
            to_multiset_contains(rearranged, rearranged[i]);
            to_multiset_contains(items, rearranged[i]);
            assert(rearranged.contains(rearranged[i]));
            let k = choose|k: int| 0 <= k < items.len() && items[k] == rearranged[i];
            assert(items[k].profit > 0);
        }
    }
    lemma_ratio_sorted(rearranged);
    lemma_ratio_order_is_unique(items, ratio_sorted(rearranged));
}

} // verus!
