//! The branch-and-bound solver for the 0/1 knapsack problem.

use vstd::prelude::*;
use vstd::seq_lib::{lemma_multiset_commutative, to_multiset_contains, to_multiset_remove};
use crate::knapsack::bound::{
    lemma_relaxation_dominates, lemma_weightless_fit_sorted, weightless_fit,
};
use crate::knapsack::dynamic::{
    dp_selection, lemma_dp_selection, lemma_dp_selection_is_selection,
    lemma_optimal_profit_dominates, optimal_profit,
};
use crate::knapsack::fractional::{
    floored_profit, lemma_fractional_pack, lemma_portion_profit, pack_fractionally, portions_of,
    relaxation_bound,
};
use crate::knapsack::integer::{greedy_pack, lemma_greedy_pack, pack_greedily};
use crate::knapsack::item::{Item, KnapsackError};
use crate::knapsack::order::{
    all_comparable, check_comparable, collect_refs, goes_before, in_ratio_order, lemma_ratio_sorted,
    ratio_sorted, sort_by_ratio,
};
use crate::knapsack::selection::{
    append_refs, copy_refs, is_selection_of, items_of, lemma_prepend_multiset,
    lemma_selection_totals, lemma_total_profit_bound, lemma_totals_concat, lemma_totals_prepend,
    lemma_totals_remove, profit_sum, total_profit, total_weight,
};
use crate::ratio::fraction_to_u64;

verus! {

/// The better of an incumbent and a candidate: the candidate only where it
/// earns strictly more.
pub open spec fn better_of(incumbent: Seq<Item>, candidate: Seq<Item>) -> Seq<Item> {
    if total_profit(candidate) > total_profit(incumbent) {
        candidate
    } else {
        incumbent
    }
}

/// The selection that the search returns for one node of the decision tree:
/// `sorted` holds the items not yet decided, in ratio order, `limit` the
/// weight that is left for them, `fixed` the items taken so far and `best`
/// the incumbent.
///
/// The greedy pack of the undecided items, together with the fixed ones, is
/// a lower bound and replaces the incumbent where it earns more. The
/// relaxation bound plus the profit of the fixed items is an upper bound;
/// where it does not exceed the incumbent's profit the node is left with the
/// incumbent. Otherwise the first undecided item is left out, then, where it
/// fits, taken, each time searching the rest with the incumbent found so far.
pub open spec fn search(sorted: Seq<Item>, limit: nat, fixed: Seq<Item>, best: Seq<Item>) -> Seq<
    Item,
>
    decreases sorted.len(),
{
    let incumbent = better_of(best, greedy_pack(sorted, limit) + fixed);
    let upper = relaxation_bound(sorted, limit) + total_profit(fixed);
    if upper <= total_profit(incumbent) || sorted.len() == 0 {
        incumbent
    } else {
        let first = sorted[0];
        let excluded = search(sorted.drop_first(), limit, fixed, incumbent);
        let incumbent = better_of(incumbent, excluded);
        let included = if first.weight <= limit {
            search(
                sorted.drop_first(),
                (limit - first.weight) as nat,
                fixed.push(first),
                incumbent,
            )
        } else {
            Seq::empty()
        };
        better_of(incumbent, included)
    }
}

/// The search never returns less profit than the incumbent it was given.
pub proof fn lemma_search_keeps_profit(
    sorted: Seq<Item>,
    limit: nat,
    fixed: Seq<Item>,
    best: Seq<Item>,
)
    ensures
        total_profit(search(sorted, limit, fixed, best)) >= total_profit(best),
    decreases sorted.len(),
{
    let incumbent = better_of(best, greedy_pack(sorted, limit) + fixed);
    let upper = relaxation_bound(sorted, limit) + total_profit(fixed);
    if !(upper <= total_profit(incumbent) || sorted.len() == 0) {
        let first = sorted[0];
        lemma_search_keeps_profit(sorted.drop_first(), limit, fixed, incumbent);
        let excluded = search(sorted.drop_first(), limit, fixed, incumbent);
        let second = better_of(incumbent, excluded);
        if first.weight <= limit {
            lemma_search_keeps_profit(
                sorted.drop_first(),
                (limit - first.weight) as nat,
                fixed.push(first),
                second,
            );
        }
    }
}

/// The search returns a selection of the items within the capacity, given
/// that the fixed and the undecided items together are a selection of the
/// items, that the limit is no more than what the fixed items leave of the
/// capacity, and that the incumbent is such a selection.
pub proof fn lemma_search_is_selection(
    sorted: Seq<Item>,
    limit: nat,
    fixed: Seq<Item>,
    best: Seq<Item>,
    items: Seq<Item>,
    capacity: nat,
)
    requires
        is_selection_of(fixed + sorted, items),
        total_weight(fixed) + limit <= capacity,
        is_selection_of(best, items),
        total_weight(best) <= capacity,
    ensures
        is_selection_of(search(sorted, limit, fixed, best), items),
        total_weight(search(sorted, limit, fixed, best)) <= capacity,
    decreases sorted.len(),
{
    let greedy = greedy_pack(sorted, limit);
    let lower = greedy + fixed;
    lemma_greedy_pack(sorted, limit);
    lemma_totals_concat(greedy, fixed);
    lemma_multiset_commutative(greedy, fixed);
    lemma_multiset_commutative(fixed, sorted);
    assert(is_selection_of(lower, items)) by {
        assert forall|v: Item| lower.to_multiset().count(v) <= items.to_multiset().count(v) by {
            assert(greedy.to_multiset().count(v) <= sorted.to_multiset().count(v));
            assert((fixed + sorted).to_multiset().count(v) <= items.to_multiset().count(v));
        }
    }
    let incumbent = better_of(best, lower);
    let upper = relaxation_bound(sorted, limit) + total_profit(fixed);
    if !(upper <= total_profit(incumbent) || sorted.len() == 0) {
        let first = sorted[0];
        let rest = sorted.drop_first();
        assert(sorted =~= seq![first] + rest);
        lemma_multiset_commutative(seq![first], rest);
        lemma_multiset_commutative(fixed, rest);
        assert(is_selection_of(fixed + rest, items)) by {
            assert forall|v: Item|
                (fixed + rest).to_multiset().count(v) <= items.to_multiset().count(v) by {
                assert((fixed + sorted).to_multiset().count(v) <= items.to_multiset().count(v));
            }
        }
        lemma_search_is_selection(rest, limit, fixed, incumbent, items, capacity);
        let excluded = search(rest, limit, fixed, incumbent);
        let second = better_of(incumbent, excluded);
        if first.weight <= limit {
            let more = fixed.push(first);
            assert(more =~= fixed + seq![first]);
            lemma_multiset_commutative(fixed, seq![first]);
            lemma_multiset_commutative(more, rest);
            lemma_totals_concat(fixed, seq![first]);
            lemma_totals_prepend(first, Seq::empty());
            assert(seq![first] + Seq::<Item>::empty() =~= seq![first]);
            assert(is_selection_of(more + rest, items)) by {
                assert forall|v: Item|
                    (more + rest).to_multiset().count(v) <= items.to_multiset().count(v) by {
                    assert((fixed + sorted).to_multiset().count(v) <= items.to_multiset().count(
                        v,
                    ));
                }
            }
            lemma_search_is_selection(
                rest,
                (limit - first.weight) as nat,
                more,
                second,
                items,
                capacity,
            );
        } else {
            let nothing = Seq::<Item>::empty();
            assert(total_profit(nothing) == 0);
        }
    }
}

/// The search returns at least the profit of the fixed items together with
/// any selection of the undecided items within the limit.
pub proof fn lemma_search_dominates(
    sorted: Seq<Item>,
    limit: nat,
    fixed: Seq<Item>,
    best: Seq<Item>,
    selection: Seq<Item>,
)
    requires
        all_comparable(sorted),
        in_ratio_order(sorted),
        weightless_fit(sorted, limit),
        is_selection_of(selection, sorted),
        total_weight(selection) <= limit,
    ensures
        total_profit(search(sorted, limit, fixed, best)) >= total_profit(fixed) + total_profit(
            selection,
        ),
    decreases sorted.len(),
{
    let greedy = greedy_pack(sorted, limit);
    let incumbent = better_of(best, greedy + fixed);
    let upper = relaxation_bound(sorted, limit) + total_profit(fixed);
    lemma_totals_concat(greedy, fixed);
    lemma_relaxation_dominates(sorted, limit, selection);
    if upper <= total_profit(incumbent) {
        // The node is left with the incumbent, which earns at least the bound.
    } else if sorted.len() == 0 {
        lemma_selection_totals(selection, sorted);
    } else {
        let first = sorted[0];
        let rest = sorted.drop_first();
        assert(sorted =~= seq![first] + rest);
        lemma_prepend_multiset(first, rest);
        assert(all_comparable(rest)) by {
            assert forall|i: int| 0 <= i < rest.len() implies (#[trigger] rest[i]).profit > 0 by {
                assert(rest[i] == sorted[i + 1]);
            }
        }
        assert(in_ratio_order(rest)) by {
            assert forall|i: int, j: int| 0 <= i < j < rest.len() implies !goes_before(
                rest[j],
                rest[i],
            ) by {
                assert(rest[i] == sorted[i + 1] && rest[j] == sorted[j + 1]);
            }
        }
        assert(weightless_fit(rest, limit)) by {
            if limit == 0 {
                assert forall|i: int| 0 <= i < rest.len() implies (#[trigger] rest[i]).weight
                    > 0 by {
                    assert(rest[i] == sorted[i + 1]);
                }
            }
        }
        let excluded = search(rest, limit, fixed, incumbent);
        let second = better_of(incumbent, excluded);
        if selection.to_multiset().count(first) <= rest.to_multiset().count(first) {
            assert(is_selection_of(selection, rest)) by {
                assert forall|v: Item|
                    selection.to_multiset().count(v) <= rest.to_multiset().count(v) by {
                    assert(selection.to_multiset().count(v) <= sorted.to_multiset().count(v));
                }
            }
            lemma_search_dominates(rest, limit, fixed, incumbent, selection);
        } else {
            to_multiset_contains(selection, first);
            assert(selection.contains(first));
            let i = choose|i: int| 0 <= i < selection.len() && selection[i] == first;
            let others = selection.remove(i);
            to_multiset_remove(selection, i);
            lemma_totals_remove(selection, i);
            assert(is_selection_of(others, rest)) by {
                assert forall|v: Item|
                    others.to_multiset().count(v) <= rest.to_multiset().count(v) by {
                    assert(selection.to_multiset().count(v) <= sorted.to_multiset().count(v));
                }
            }
            let room = (limit - first.weight) as nat;
            assert(weightless_fit(rest, room)) by {
                if room == 0 {
                    assert forall|i: int| 0 <= i < rest.len() implies (
                    #[trigger] rest[i]).weight > 0 by {
                        assert(rest[i] == sorted[i + 1]);
                        assert(!goes_before(sorted[i + 1], sorted[0]));
                        if limit > 0 {
                            // The first item has weight, and no later item has a lower ratio.
                            assert(first.weight * rest[i].profit > 0) by (nonlinear_arith)
                                requires
                                    first.weight > 0,
                                    rest[i].profit > 0,
                            ;
                            if rest[i].weight == 0 {
                                assert(rest[i].weight * first.profit == 0) by (nonlinear_arith)
                                    requires
                                        rest[i].weight == 0,
                                ;
                            }
                        }
                    }
                }
            }
            let more = fixed.push(first);
            assert(more =~= fixed + seq![first]);
            lemma_totals_concat(fixed, seq![first]);
            lemma_totals_prepend(first, Seq::empty());
            assert(seq![first] + Seq::<Item>::empty() =~= seq![first]);
            lemma_search_dominates(rest, room, more, second, others);
        }
    }
}

/// Branch and bound finds the optimal profit, provided there is capacity or
/// every item has weight. (Without capacity the search ends at once with the
/// empty selection, though items without weight could still be packed.)
pub proof fn lemma_branch_and_bound_is_optimal(items: Seq<Item>, capacity: nat)
    requires
        all_comparable(items),
        weightless_fit(items, capacity),
    ensures
        total_profit(search(ratio_sorted(items), capacity, Seq::empty(), Seq::empty()))
            == optimal_profit(items, capacity),
{
    let nothing = Seq::<Item>::empty();
    let sorted = ratio_sorted(items);
    let found = search(sorted, capacity, nothing, nothing);
    lemma_ratio_sorted(items);
    lemma_search_result(items, capacity);
    lemma_optimal_profit_dominates(items, capacity, found);
    let exact = dp_selection(items, capacity);
    lemma_dp_selection(items, capacity);
    lemma_dp_selection_is_selection(items, capacity);
    lemma_weightless_fit_sorted(items, capacity);
    assert(total_profit(nothing) == 0);
    lemma_search_dominates(sorted, capacity, nothing, nothing, exact);
}

/// What branch and bound returns is a selection of the items within the
/// capacity.
pub proof fn lemma_search_result(items: Seq<Item>, capacity: nat)
    ensures
        is_selection_of(
            search(ratio_sorted(items), capacity, Seq::empty(), Seq::empty()),
            items,
        ),
        total_weight(search(ratio_sorted(items), capacity, Seq::empty(), Seq::empty()))
            <= capacity,
{
    let nothing = Seq::<Item>::empty();
    let sorted = ratio_sorted(items);
    lemma_ratio_sorted(items);
    assert(nothing + sorted =~= sorted);
    assert(is_selection_of(nothing, items)) by {
        assert forall|v: Item| nothing.to_multiset().count(v) <= items.to_multiset().count(v) by {
            to_multiset_contains(nothing, v);
        }
    }
    assert(total_weight(nothing) == 0);
    lemma_search_is_selection(sorted, capacity, nothing, nothing, items, capacity);
}

/// The relaxation bound of the items from position `start` on.
fn upper_bound<'a>(sorted: &Vec<&'a Item>, start: usize, weight_limit: u64) -> (bound: u128)
    requires
        start <= sorted.len(),
    ensures
        bound == relaxation_bound(items_of(sorted@).skip(start as int), weight_limit as nat),
        bound <= (sorted.len() - start) * u64::MAX,
{
    let packed = pack_fractionally(sorted, start, weight_limit);
    let ghost portions = portions_of(packed@);
    proof {
        lemma_fractional_pack(items_of(sorted@).skip(start as int), weight_limit as nat);
    }
    let mut bound: u128 = 0;
    let mut k: usize = 0;
    while k < packed.len()
        invariant
            k <= packed.len(),
            packed.len() <= sorted.len() - start,
            portions == portions_of(packed@),
            forall|j: int|
                0 <= j < portions.len() ==> {
                    let portion = (#[trigger] portions[j]).1;
                    0 < portion.numer <= portion.denom && portion.numer <= u64::MAX
                        && portion.is_reduced()
                },
            bound == floored_profit(portions.take(k as int)),
            bound <= k * u64::MAX,
        decreases packed.len() - k,
    {
        let ghost (item, portion) = portions[k as int];
        proof {
            assert(portions.take(k + 1).drop_last() =~= portions.take(k as int));
            assert(item == *packed@[k as int].item && portion == packed@[k as int].take_portion);
            lemma_portion_profit(item, portion);
            assert(k * u64::MAX + u64::MAX <= usize::MAX * u64::MAX) by (nonlinear_arith)
                requires
                    k < usize::MAX,
            ;
        }
        let profit = packed[k].effective_profit();
        let floor = fraction_to_u64(&profit);
        bound = bound + floor as u128;
        k = k + 1;
    }
    proof {
        assert(portions.take(k as int) =~= portions);
        assert(k * u64::MAX <= (sorted.len() - start) * u64::MAX) by (nonlinear_arith)
            requires
                k <= sorted.len() - start,
        ;
    }
    bound
}

/// Searches the decision tree below one node: the items from position
/// `start` on are undecided.
fn search_subtree<'a>(
    sorted: &Vec<&'a Item>,
    start: usize,
    weight_limit: u64,
    fixed: &Vec<&'a Item>,
    best: &Vec<&'a Item>,
) -> (found: Vec<&'a Item>)
    requires
        start <= sorted.len(),
        fixed.len() <= start,
    ensures
        items_of(found@) == search(
            items_of(sorted@).skip(start as int),
            weight_limit as nat,
            items_of(fixed@),
            items_of(best@),
        ),
    decreases sorted.len() - start,
{
    let ghost undecided = items_of(sorted@).skip(start as int);
    let mut incumbent = copy_refs(best);
    // The lower bound: what the greedy heuristic adds to the fixed items.
    let mut lower = pack_greedily(sorted, start, weight_limit);
    append_refs(&mut lower, fixed);
    if profit_sum(&lower) > profit_sum(&incumbent) {
        incumbent = lower;
    }
    // The upper bound: the fractional relaxation, rounded down.
    proof {
        lemma_total_profit_bound(items_of(fixed@));
        assert((sorted.len() - start) * u64::MAX + fixed.len() * u64::MAX <= usize::MAX
            * u64::MAX) by (nonlinear_arith)
            requires
                fixed.len() <= start <= sorted.len() <= usize::MAX,
        ;
    }
    let upper = upper_bound(sorted, start, weight_limit) + profit_sum(fixed);
    if upper <= profit_sum(&incumbent) || start == sorted.len() {
        return incumbent;
    }
    let first: &'a Item = sorted[start];
    proof {
        assert(undecided[0] == *first);
        assert(undecided.drop_first() =~= items_of(sorted@).skip(start + 1));
    }
    let excluded = search_subtree(sorted, start + 1, weight_limit, fixed, &incumbent);
    if profit_sum(&excluded) > profit_sum(&incumbent) {
        incumbent = excluded;
    }
    let included = if first.weight <= weight_limit {
        let mut fixed_with_first = copy_refs(fixed);
        fixed_with_first.push(first);
        assert(items_of(fixed_with_first@) =~= items_of(fixed@).push(*first));
        search_subtree(
            sorted,
            start + 1,
            weight_limit - first.weight,
            &fixed_with_first,
            &incumbent,
        )
    } else {
        Vec::new()
    };
    assert(first.weight > weight_limit ==> items_of(included@) =~= Seq::<Item>::empty());
    if profit_sum(&included) > profit_sum(&incumbent) {
        incumbent = included;
    }
    incumbent
}

/// Solves the 0/1 knapsack problem with branch and bound: the items are put
/// in ratio order, and the tree of decisions to leave out or take each item
/// in turn is searched, skipping every subtree whose upper bound does not
/// exceed the profit of the best selection found so far.
///
/// The selection is optimal where there is capacity or every item has weight.
/// Without capacity the search ends at once with the empty selection, though
/// items without weight could still be packed. An item of profit zero has no
/// ratio; with such an item among them the items are turned down.
pub fn branch_and_bound<'a>(items: &'a [Item], weight_limit: u64) -> (result: Result<
    Vec<&'a Item>,
    KnapsackError,
>)
    ensures
        match result {
            Ok(knapsack) => {
                &&& all_comparable(items@)
                &&& items_of(knapsack@) == search(
                    ratio_sorted(items@),
                    weight_limit as nat,
                    Seq::empty(),
                    Seq::empty(),
                )
                &&& total_weight(items_of(knapsack@)) <= weight_limit
                &&& is_selection_of(items_of(knapsack@), items@)
                &&& weightless_fit(items@, weight_limit as nat) ==> total_profit(
                    items_of(knapsack@),
                ) == optimal_profit(items@, weight_limit as nat)
            },
            Err(error) => error == KnapsackError::IncomparableItem && !all_comparable(items@),
        },
{
    match check_comparable(items) {
        Err(error) => Err(error),
        Ok(_) => {
            let sorted = sort_by_ratio(&collect_refs(items));
            let nothing: Vec<&'a Item> = Vec::new();
            let knapsack = search_subtree(&sorted, 0, weight_limit, &nothing, &nothing);
            proof {
                assert(items_of(sorted@).skip(0) =~= items_of(sorted@));
                assert(items_of(nothing@) =~= Seq::<Item>::empty());
                lemma_search_result(items@, weight_limit as nat);
                if weightless_fit(items@, weight_limit as nat) {
                    lemma_branch_and_bound_is_optimal(items@, weight_limit as nat);
                }
            }
            Ok(knapsack)
        },
    }
}

} // verus!
