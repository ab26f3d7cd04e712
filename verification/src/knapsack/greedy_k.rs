//! The greedy-k heuristic for the 0/1 knapsack problem.

use vstd::prelude::*;
use vstd::seq_lib::{lemma_multiset_commutative, to_multiset_build, to_multiset_contains};
use crate::combinations::{
    index_combinations, is_combination, lemma_lex_combinations, lemma_lex_combinations_none,
    lex_combinations, next_combination, pending,
};
use crate::knapsack::integer::{greedy_pack, lemma_greedy_pack, pack_greedily};
use crate::knapsack::item::{Item, KnapsackError};
use crate::knapsack::order::{
    all_comparable, check_comparable, collect_refs, lemma_ratio_sorted, ratio_sorted, sort_by_ratio,
};
use crate::knapsack::selection::{
    append_refs, is_selection_of, items_of, lemma_take_is_selection, lemma_totals_concat,
    profit_sum, total_profit, total_weight, weight_sum,
};

verus! {

/// The items at the positions `indices`, in the order of `indices`.
pub open spec fn picked(items: Seq<Item>, indices: Seq<usize>) -> Seq<Item> {
    indices.map_values(|i: usize| items[i as int])
}

/// The items that are equal to none of the `fixed` ones, in their order.
pub open spec fn remaining_after(items: Seq<Item>, fixed: Seq<Item>) -> Seq<Item> {
    items.filter(|item: Item| !fixed.contains(item))
}

/// The selection that completes `fixed`: what the integer greedy heuristic
/// packs of the remaining items into the weight that `fixed` leaves over,
/// followed by `fixed` itself.
pub open spec fn completed(items: Seq<Item>, limit: nat, fixed: Seq<Item>) -> Seq<Item> {
    greedy_pack(
        ratio_sorted(remaining_after(items, fixed)),
        (limit - total_weight(fixed)) as nat,
    ) + fixed
}

/// The best selection after the `combinations` have been tried in turn,
/// starting from `best`. A combination that weighs more than `limit` is
/// passed over; the completion of any other replaces the best selection so far
/// unless it earns less.
pub open spec fn best_completion(
    items: Seq<Item>,
    limit: nat,
    combinations: Seq<Seq<usize>>,
    best: Seq<Item>,
) -> Seq<Item>
    decreases combinations.len(),
{
    if combinations.len() == 0 {
        best
    } else {
        best_completion(
            items,
            limit,
            combinations.drop_first(),
            tried(items, limit, combinations[0], best),
        )
    }
}

/// The best selection after the one combination `indices` has been tried.
pub open spec fn tried(items: Seq<Item>, limit: nat, indices: Seq<usize>, best: Seq<Item>) -> Seq<
    Item,
> {
    let fixed = picked(items, indices);
    if total_weight(fixed) <= limit && total_profit(completed(items, limit, fixed))
        >= total_profit(best) {
        completed(items, limit, fixed)
    } else {
        best
    }
}

/// The selection of greedy-k: the best selection after all combinations of
/// no item, of one item, and so on up to `k` items have been tried, smaller
/// combinations first and those of one size in lexicographic order of their
/// positions.
pub open spec fn greedy_k_selection(items: Seq<Item>, limit: nat, k: nat) -> Seq<Item>
    decreases k,
{
    let before = if k == 0 {
        Seq::empty()
    } else {
        greedy_k_selection(items, limit, (k - 1) as nat)
    };
    best_completion(items, limit, lex_combinations(0, items.len() as usize, k), before)
}

/// The items at ascending positions below `bound` are a selection of the
/// items before `bound`.
pub proof fn lemma_picked_is_selection(items: Seq<Item>, indices: Seq<usize>, bound: usize)
    requires
        bound <= items.len(),
        is_combination(indices, 0, bound, indices.len()),
    ensures
        is_selection_of(picked(items, indices), items.take(bound as int)),
    decreases indices.len(),
{
    let fixed = picked(items, indices);
    if indices.len() == 0 {
        assert forall|v: Item|
            fixed.to_multiset().count(v) <= items.take(bound as int).to_multiset().count(v) by {
            to_multiset_contains(fixed, v);
        }
    } else {
        let last = indices.last();
        let front = indices.drop_last();
        assert(is_combination(front, 0, last, front.len())) by {
            assert forall|j: int| 0 <= j < front.len() implies 0 <= #[trigger] front[j] < last by {
                assert(indices[j] < indices[indices.len() - 1]);
            }
            assert forall|i: int, j: int| 0 <= i < j < front.len() implies front[i] < front[j] by {
                assert(indices[i] < indices[j]);
            }
        }
        lemma_picked_is_selection(items, front, last);
        assert(fixed =~= picked(items, front).push(items[last as int]));
        to_multiset_build(picked(items, front), items[last as int]);
        let upto = items.take(last + 1);
        assert(upto =~= items.take(last as int).push(items[last as int]));
        to_multiset_build(items.take(last as int), items[last as int]);
        assert(upto =~= items.take(bound as int).take(last + 1));
        lemma_take_is_selection(items.take(bound as int), last + 1);
        assert forall|v: Item|
            fixed.to_multiset().count(v) <= items.take(bound as int).to_multiset().count(v) by {
            assert(picked(items, front).to_multiset().count(v) <= items.take(
                last as int,
            ).to_multiset().count(v));
            assert(upto.to_multiset().count(v) <= items.take(bound as int).to_multiset().count(
                v,
            ));
        }
    }
}

/// Filtering keeps every copy of a value that passes and none of any other.
pub proof fn lemma_filter_count(items: Seq<Item>, pred: spec_fn(Item) -> bool, v: Item)
    ensures
        items.filter(pred).to_multiset().count(v) == if pred(v) {
            items.to_multiset().count(v)
        } else {
            0
        },
    decreases items.len(),
{
    if items.len() == 0 {
        reveal(Seq::filter);
        to_multiset_contains(items, v);
        to_multiset_contains(items.filter(pred), v);
    } else {
        let front = items.drop_last();
        let last = items.last();
        assert(items =~= front.push(last));
        front.lemma_filter_push(last, pred);
        lemma_filter_count(front, pred, v);
        to_multiset_build(front, last);
        to_multiset_build(front.filter(pred), last);
    }
}

/// The completion of a selection that weighs no more than the limit is
/// itself a selection of the items and weighs no more than the limit.
pub proof fn lemma_completed(items: Seq<Item>, limit: nat, fixed: Seq<Item>)
    requires
        is_selection_of(fixed, items),
        total_weight(fixed) <= limit,
    ensures
        is_selection_of(completed(items, limit, fixed), items),
        total_weight(completed(items, limit, fixed)) <= limit,
{
    let rest = remaining_after(items, fixed);
    let room = (limit - total_weight(fixed)) as nat;
    let packed = greedy_pack(ratio_sorted(rest), room);
    lemma_ratio_sorted(rest);
    lemma_greedy_pack(ratio_sorted(rest), room);
    lemma_totals_concat(packed, fixed);
    lemma_multiset_commutative(packed, fixed);
    assert forall|v: Item|
        completed(items, limit, fixed).to_multiset().count(v) <= items.to_multiset().count(
            v,
        ) by {
        lemma_filter_count(items, |item: Item| !fixed.contains(item), v);
        to_multiset_contains(fixed, v);
        assert(packed.to_multiset().count(v) <= rest.to_multiset().count(v));
        assert(fixed.to_multiset().count(v) <= items.to_multiset().count(v));
    }
}

/// Trying combinations keeps a selection of the items that weighs no more
/// than the limit, and never lowers the profit.
pub proof fn lemma_best_completion(
    items: Seq<Item>,
    limit: nat,
    combinations: Seq<Seq<usize>>,
    best: Seq<Item>,
)
    requires
        items.len() <= usize::MAX,
        is_selection_of(best, items),
        total_weight(best) <= limit,
        forall|i: int|
            0 <= i < combinations.len() ==> is_combination(
                #[trigger] combinations[i],
                0,
                items.len() as usize,
                combinations[i].len(),
            ),
    ensures
        is_selection_of(best_completion(items, limit, combinations, best), items),
        total_weight(best_completion(items, limit, combinations, best)) <= limit,
        total_profit(best_completion(items, limit, combinations, best)) >= total_profit(best),
    decreases combinations.len(),
{
    if combinations.len() > 0 {
        let indices = combinations[0];
        let fixed = picked(items, indices);
        assert(is_combination(indices, 0, items.len() as usize, indices.len()));
        lemma_picked_is_selection(items, indices, items.len() as usize);
        assert(items.take(items.len() as int) =~= items);
        if total_weight(fixed) <= limit {
            lemma_completed(items, limit, fixed);
        }
        let rest = combinations.drop_first();
        assert forall|i: int| 0 <= i < rest.len() implies is_combination(
            #[trigger] rest[i],
            0,
            items.len() as usize,
            rest[i].len(),
        ) by {
            assert(rest[i] == combinations[i + 1]);
        }
        lemma_best_completion(items, limit, rest, tried(items, limit, indices, best));
    }
}

/// The selection of greedy-k is a selection of the items, weighs no more
/// than the limit and earns at least what the integer greedy heuristic earns.
pub proof fn lemma_greedy_k_selection(items: Seq<Item>, limit: nat, k: nat)
    requires
        items.len() <= usize::MAX,
    ensures
        is_selection_of(greedy_k_selection(items, limit, k), items),
        total_weight(greedy_k_selection(items, limit, k)) <= limit,
        total_profit(greedy_k_selection(items, limit, k)) >= total_profit(
            greedy_pack(ratio_sorted(items), limit),
        ),
    decreases k,
{
    let combinations = lex_combinations(0, items.len() as usize, k);
    lemma_lex_combinations(0, items.len() as usize, k);
    assert forall|i: int| 0 <= i < combinations.len() implies is_combination(
        #[trigger] combinations[i],
        0,
        items.len() as usize,
        combinations[i].len(),
    ) by {
        assert(is_combination(combinations[i], 0, items.len() as usize, k));
    }
    if k == 0 {
        let nothing = Seq::<Item>::empty();
        assert forall|v: Item| nothing.to_multiset().count(v) <= items.to_multiset().count(v) by {
            to_multiset_contains(nothing, v);
        }
        lemma_best_completion(items, limit, combinations, nothing);
        // The one combination of no items is completed by the greedy pack of all items.
        assert(combinations =~= seq![Seq::<usize>::empty()]);
        assert(combinations.drop_first() =~= Seq::<Seq<usize>>::empty());
        let fixed = picked(items, combinations[0]);
        assert(fixed =~= nothing);
        assert(remaining_after(items, fixed) =~= items) by {
            lemma_filter_all(items, fixed);
        }
        let greedy = greedy_pack(ratio_sorted(items), limit);
        assert(completed(items, limit, fixed) =~= greedy);
        assert(total_weight(fixed) == 0);
        assert(total_profit(nothing) == 0);
        assert(tried(items, limit, combinations[0], nothing) == greedy);
        assert(best_completion(items, limit, combinations.drop_first(), greedy) == greedy);
        assert(greedy_k_selection(items, limit, k) == greedy);
    } else {
        lemma_greedy_k_selection(items, limit, (k - 1) as nat);
        lemma_best_completion(
            items,
            limit,
            combinations,
            greedy_k_selection(items, limit, (k - 1) as nat),
        );
    }
}

/// Fixing more items than there are adds nothing: there are no such
/// combinations.
pub proof fn lemma_greedy_k_beyond(items: Seq<Item>, limit: nat, k: nat)
    requires
        items.len() <= usize::MAX,
        k >= items.len(),
    ensures
        greedy_k_selection(items, limit, k) == greedy_k_selection(items, limit, items.len()),
    decreases k,
{
    if k > items.len() {
        lemma_lex_combinations_none(0, items.len() as usize, k);
        lemma_greedy_k_beyond(items, limit, (k - 1) as nat);
    }
}

/// With nothing fixed, every item remains.
proof fn lemma_filter_all(items: Seq<Item>, fixed: Seq<Item>)
    requires
        fixed.len() == 0,
    ensures
        remaining_after(items, fixed) == items,
    decreases items.len(),
{
    let unfixed = |item: Item| !fixed.contains(item);
    if items.len() == 0 {
        reveal(Seq::filter);
    } else {
        lemma_filter_all(items.drop_last(), fixed);
        assert(items =~= items.drop_last().push(items.last()));
        items.drop_last().lemma_filter_push(items.last(), unfixed);
    }
}

/// Whether `item` is equal to one of `fixed`.
fn is_fixed(fixed: &Vec<&Item>, item: &Item) -> (found: bool)
    ensures
        found == items_of(fixed@).contains(*item),
{
    let mut i: usize = 0;
    while i < fixed.len()
        invariant
            i <= fixed.len(),
            forall|k: int| 0 <= k < i ==> items_of(fixed@)[k] != *item,
        decreases fixed.len() - i,
    {
        let other: &Item = fixed[i];
        if other.id == item.id && other.profit == item.profit && other.weight == item.weight {
            assert(items_of(fixed@)[i as int] == *item);
            return true;
        }
        i = i + 1;
    }
    false
}

/// The items at the positions `indices`.
fn pick<'a>(items: &Vec<&'a Item>, indices: &Vec<usize>) -> (fixed: Vec<&'a Item>)
    requires
        forall|j: int| 0 <= j < indices.len() ==> (#[trigger] indices[j]) < items.len(),
    ensures
        items_of(fixed@) == picked(items_of(items@), indices@),
{
    let mut fixed: Vec<&'a Item> = Vec::new();
    let mut j: usize = 0;
    while j < indices.len()
        invariant
            j <= indices.len(),
            fixed.len() == j,
            forall|i: int| 0 <= i < indices.len() ==> (#[trigger] indices[i]) < items.len(),
            forall|i: int| 0 <= i < j ==> *(#[trigger] fixed@[i]) == items_of(items@)[indices[i] as int],
        decreases indices.len() - j,
    {
        fixed.push(items[indices[j]]);
        j = j + 1;
    }
    assert(items_of(fixed@) =~= picked(items_of(items@), indices@));
    fixed
}

/// The items that are equal to none of the `fixed` ones.
fn remaining<'a>(items: &Vec<&'a Item>, fixed: &Vec<&'a Item>) -> (rest: Vec<&'a Item>)
    requires
        all_comparable(items_of(items@)),
    ensures
        items_of(rest@) == remaining_after(items_of(items@), items_of(fixed@)),
        all_comparable(items_of(rest@)),
{
    let ghost all = items_of(items@);
    let ghost unfixed = |item: Item| !items_of(fixed@).contains(item);
    let mut rest: Vec<&'a Item> = Vec::new();
    let mut i: usize = 0;
    proof {
        reveal(Seq::filter);
        assert(items_of(rest@) =~= all.take(0).filter(unfixed));
    }
    while i < items.len()
        invariant
            i <= items.len(),
            all == items_of(items@),
            all_comparable(all),
            unfixed == |item: Item| !items_of(fixed@).contains(item),
            items_of(rest@) == all.take(i as int).filter(unfixed),
            all_comparable(items_of(rest@)),
        decreases items.len() - i,
    {
        let item: &'a Item = items[i];
        let ghost before = items_of(rest@);
        proof {
            assert(all[i as int] == *item);
            assert(all.take(i + 1) =~= all.take(i as int).push(*item));
            all.take(i as int).lemma_filter_push(*item, unfixed);
        }
        if !is_fixed(fixed, item) {
            rest.push(item);
            proof {
                assert(items_of(rest@) =~= before.push(*item));
                assert forall|k: int| 0 <= k < items_of(rest@).len() implies (
                #[trigger] items_of(rest@)[k]).profit > 0 by {
                    if k < before.len() {
                        assert(items_of(rest@)[k] == before[k]);
                    }
                }
            }
        }
        i = i + 1;
    }
    proof {
        assert(all.take(i as int) =~= all);
    }
    rest
}

/// Tries one combination against the best selection so far.
fn try_combination<'a>(
    items: &Vec<&'a Item>,
    weight_limit: u64,
    indices: &Vec<usize>,
    best: Vec<&'a Item>,
) -> (better: Vec<&'a Item>)
    requires
        all_comparable(items_of(items@)),
        forall|j: int| 0 <= j < indices.len() ==> (#[trigger] indices[j]) < items.len(),
    ensures
        items_of(better@) == tried(
            items_of(items@),
            weight_limit as nat,
            indices@,
            items_of(best@),
        ),
{
    let fixed = pick(items, indices);
    let fixed_weight = weight_sum(&fixed);
    if fixed_weight > weight_limit as u128 {
        return best;
    }
    let rest = remaining(items, &fixed);
    let sorted = sort_by_ratio(&rest);
    let mut candidate = pack_greedily(&sorted, 0, weight_limit - fixed_weight as u64);
    append_refs(&mut candidate, &fixed);
    proof {
        assert(items_of(sorted@).skip(0) =~= items_of(sorted@));
    }
    if profit_sum(&candidate) >= profit_sum(&best) {
        candidate
    } else {
        best
    }
}

/// Tries all combinations of `size` positions against the best selection so
/// far.
fn try_combinations<'a>(
    items: &Vec<&'a Item>,
    weight_limit: u64,
    size: usize,
    best: Vec<&'a Item>,
) -> (better: Vec<&'a Item>)
    requires
        all_comparable(items_of(items@)),
        size <= items.len(),
    ensures
        items_of(better@) == best_completion(
            items_of(items@),
            weight_limit as nat,
            lex_combinations(0, items.len(), size as nat),
            items_of(best@),
        ),
{
    let ghost all = items_of(items@);
    let ghost start = items_of(best@);
    let mut best = best;
    let mut combinations = index_combinations(items.len(), size);
    proof {
        lemma_lex_combinations(0, items.len(), size as nat);
    }
    loop
        invariant
            all == items_of(items@),
            all_comparable(all),
            forall|i: int|
                0 <= i < pending(combinations).len() ==> is_combination(
                    #[trigger] pending(combinations)[i],
                    0,
                    items.len(),
                    size as nat,
                ),
            best_completion(all, weight_limit as nat, pending(combinations), items_of(best@))
                == best_completion(
                all,
                weight_limit as nat,
                lex_combinations(0, items.len(), size as nat),
                start,
            ),
        ensures
            items_of(best@) == best_completion(
                all,
                weight_limit as nat,
                lex_combinations(0, items.len(), size as nat),
                start,
            ),
        decreases pending(combinations).len(),
    {
        let ghost before = pending(combinations);
        match next_combination(&mut combinations) {
            None => {
                break ;
            },
            Some(indices) => {
                proof {
                    assert(is_combination(before[0], 0, items.len(), size as nat));
                    assert forall|i: int| 0 <= i < pending(combinations).len() implies
                        is_combination(
                        #[trigger] pending(combinations)[i],
                        0,
                        items.len(),
                        size as nat,
                    ) by {
                        assert(pending(combinations)[i] == before[i + 1]);
                    }
                }
                best = try_combination(items, weight_limit, &indices, best);
            },
        }
    }
    best
}

/// Solves the 0/1 knapsack problem with the greedy-k heuristic: every
/// combination of at most `k` items that does not weigh more than the limit
/// is fixed in turn and completed by the integer greedy heuristic on the
/// remaining items and the remaining weight. The returned selection is the
/// completion with the highest total profit, the last of them where several
/// earn the same. The selection may not be optimal.
///
/// The number of combinations grows quickly with `k`; keeping it tractable is
/// up to the caller. An item of profit zero has no ratio; with such an item
/// among them the items are turned down.
pub fn greedy_k<'a>(items: &'a [Item], weight_limit: u64, k: usize) -> (result: Result<
    Vec<&'a Item>,
    KnapsackError,
>)
    ensures
        match result {
            Ok(knapsack) => {
                &&& all_comparable(items@)
                &&& items_of(knapsack@) == greedy_k_selection(
                    items@,
                    weight_limit as nat,
                    k as nat,
                )
                &&& total_weight(items_of(knapsack@)) <= weight_limit
                &&& is_selection_of(items_of(knapsack@), items@)
            },
            Err(error) => error == KnapsackError::IncomparableItem && !all_comparable(items@),
        },
{
    match check_comparable(items) {
        Err(error) => Err(error),
        Ok(_) => {
            let refs = collect_refs(items);
            // There are no combinations of more items than there are.
            let largest: usize = if k < refs.len() {
                k
            } else {
                refs.len()
            };
            let mut best: Vec<&'a Item> = Vec::new();
            let mut size: usize = 0;
            assert(items_of(best@) =~= Seq::<Item>::empty());
            loop
                invariant_except_break
                    size == 0 ==> items_of(best@) == Seq::<Item>::empty(),
                    size > 0 ==> items_of(best@) == greedy_k_selection(
                        items@,
                        weight_limit as nat,
                        (size - 1) as nat,
                    ),
                invariant
                    size <= largest <= refs.len(),
                    refs.len() == items.len(),
                    items_of(refs@) == items@,
                    all_comparable(items@),
                ensures
                    items_of(best@) == greedy_k_selection(
                        items@,
                        weight_limit as nat,
                        largest as nat,
                    ),
                decreases largest - size,
            {
                best = try_combinations(&refs, weight_limit, size, best);
                if size == largest {
                    break ;
                }
                size = size + 1;
            }
            proof {
                if k > largest {
                    lemma_greedy_k_beyond(items@, weight_limit as nat, k as nat);
                }
                lemma_greedy_k_selection(items@, weight_limit as nat, k as nat);
            }
            Ok(best)
        },
    }
}

} // verus!
