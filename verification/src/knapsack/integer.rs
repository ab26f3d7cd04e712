//! The integer greedy heuristic for the 0/1 knapsack problem.

use vstd::prelude::*;
use vstd::seq_lib::lemma_multiset_commutative;
use crate::knapsack::item::{Item, KnapsackError};
use crate::knapsack::order::{
    all_comparable, check_comparable, collect_refs, lemma_ratio_sorted, ratio_sorted, sort_by_ratio,
};
use crate::knapsack::selection::{is_selection_of, items_of, lemma_totals_prepend, total_weight};

verus! {

/// What one walk over `sorted` packs into `capacity`: every item that still
/// fits in what is left of the capacity is taken, an item that does not fit
/// is passed over, and the walk ends when nothing is left of the capacity.
pub open spec fn greedy_pack(sorted: Seq<Item>, capacity: nat) -> Seq<Item>
    decreases sorted.len(),
{
    if sorted.len() == 0 || capacity == 0 {
        Seq::empty()
    } else if sorted[0].weight <= capacity {
        seq![sorted[0]] + greedy_pack(sorted.drop_first(), (capacity - sorted[0].weight) as nat)
    } else {
        greedy_pack(sorted.drop_first(), capacity)
    }
}

/// A greedy walk stays within the capacity and takes each item at most once.
pub proof fn lemma_greedy_pack(sorted: Seq<Item>, capacity: nat)
    ensures
        total_weight(greedy_pack(sorted, capacity)) <= capacity,
        is_selection_of(greedy_pack(sorted, capacity), sorted),
    decreases sorted.len(),
{
    let packed = greedy_pack(sorted, capacity);
    if sorted.len() == 0 || capacity == 0 {
        assert forall|v: Item| packed.to_multiset().count(v) <= sorted.to_multiset().count(v) by {
            packed.to_multiset_ensures();
            if packed.to_multiset().count(v) > 0 {
                assert(packed.contains(v));
            }
        }
    } else {
        let first = sorted[0];
        let rest = sorted.drop_first();
        assert(sorted =~= seq![first] + rest);
        lemma_multiset_commutative(seq![first], rest);
        if first.weight <= capacity {
            let inner = greedy_pack(rest, (capacity - first.weight) as nat);
            lemma_greedy_pack(rest, (capacity - first.weight) as nat);
            lemma_totals_prepend(first, inner);
            lemma_multiset_commutative(seq![first], inner);
            assert forall|v: Item| packed.to_multiset().count(v) <= sorted.to_multiset().count(
                v,
            ) by {
                assert(inner.to_multiset().count(v) <= rest.to_multiset().count(v));
            }
        } else {
            lemma_greedy_pack(rest, capacity);
            assert forall|v: Item| packed.to_multiset().count(v) <= sorted.to_multiset().count(
                v,
            ) by {
                assert(packed.to_multiset().count(v) <= rest.to_multiset().count(v));
            }
        }
    }
}

/// Walks over `sorted` from position `start` on and packs what fits.
pub(crate) fn pack_greedily<'a>(sorted: &Vec<&'a Item>, start: usize, capacity: u64) -> (knapsack:
    Vec<&'a Item>)
    requires
        start <= sorted.len(),
    ensures
        items_of(knapsack@) == greedy_pack(items_of(sorted@).skip(start as int), capacity as nat),
{
    let ghost all = items_of(sorted@);
    let mut knapsack: Vec<&'a Item> = Vec::new();
    let mut available: u64 = capacity;
    let mut i: usize = start;
    assert(items_of(knapsack@) + greedy_pack(all.skip(i as int), available as nat) =~= greedy_pack(
        all.skip(start as int),
        capacity as nat,
    ));
    while i < sorted.len() && available > 0
        invariant
            start <= i <= sorted.len(),
            all == items_of(sorted@),
            items_of(knapsack@) + greedy_pack(all.skip(i as int), available as nat) == greedy_pack(
                all.skip(start as int),
                capacity as nat,
            ),
        decreases sorted.len() - i,
    {
        let item: &'a Item = sorted[i];
        let ghost taken = items_of(knapsack@);
        proof {
            assert(all.skip(i as int)[0] == *item);
            assert(all.skip(i as int).drop_first() =~= all.skip(i + 1));
        }
        if item.weight <= available {
            knapsack.push(item);
            available = available - item.weight;
            proof {
                let rest = greedy_pack(all.skip(i + 1), available as nat);
                assert(items_of(knapsack@) =~= taken.push(*item));
                assert(taken.push(*item) + rest =~= taken + (seq![*item] + rest));
            }
        }
        i = i + 1;
    }
    proof {
        assert(greedy_pack(all.skip(i as int), available as nat) =~= Seq::<Item>::empty());
        assert(items_of(knapsack@) + Seq::<Item>::empty() =~= items_of(knapsack@));
    }
    knapsack
}

/// Solves the 0/1 knapsack problem with the integer greedy heuristic: the
/// items are walked in ratio order, and each one that still fits is taken.
/// The selection may not be optimal.
///
/// An item of profit zero has no ratio; with such an item among them the
/// items are turned down.
pub fn integer_greedy<'a>(items: &'a [Item], weight_capacity: u64) -> (result: Result<
    Vec<&'a Item>,
    KnapsackError,
>)
    ensures
        match result {
            Ok(knapsack) => {
                &&& all_comparable(items@)
                &&& items_of(knapsack@) == greedy_pack(ratio_sorted(items@), weight_capacity as nat)
                &&& total_weight(items_of(knapsack@)) <= weight_capacity
                &&& is_selection_of(items_of(knapsack@), items@)
            },
            Err(error) => error == KnapsackError::IncomparableItem && !all_comparable(items@),
        },
{
    match check_comparable(items) {
        Err(error) => Err(error),
        Ok(_) => {
            let sorted = sort_by_ratio(&collect_refs(items));
            let knapsack = pack_greedily(&sorted, 0, weight_capacity);
            proof {
                assert(items_of(sorted@).skip(0) =~= items_of(sorted@));
                lemma_ratio_sorted(items@);
                lemma_greedy_pack(ratio_sorted(items@), weight_capacity as nat);
            }
            Ok(knapsack)
        },
    }
}

} // verus!
