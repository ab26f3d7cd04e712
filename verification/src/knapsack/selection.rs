//! Selections of items: what they hold, weigh and earn.

use vstd::prelude::*;
use vstd::seq_lib::{
    lemma_multiset_commutative, to_multiset_build, to_multiset_contains, to_multiset_remove,
};
use crate::knapsack::item::Item;

verus! {

/// The items that a sequence of references points to.
pub open spec fn items_of(refs: Seq<&Item>) -> Seq<Item> {
    refs.map_values(|r: &Item| *r)
}

/// The summed weight of `items`.
pub open spec fn total_weight(items: Seq<Item>) -> nat
    decreases items.len(),
{
    if items.len() == 0 {
        0
    } else {
        total_weight(items.drop_last()) + items.last().weight as nat
    }
}

/// The summed profit of `items`.
pub open spec fn total_profit(items: Seq<Item>) -> nat
    decreases items.len(),
{
    if items.len() == 0 {
        0
    } else {
        total_profit(items.drop_last()) + items.last().profit as nat
    }
}

/// A prefix never weighs or earns more than the whole sequence.
pub proof fn lemma_totals_prefix(items: Seq<Item>, n: int)
    requires
        0 <= n <= items.len(),
    ensures
        total_weight(items.take(n)) <= total_weight(items),
        total_profit(items.take(n)) <= total_profit(items),
    decreases items.len(),
{
    if n == items.len() {
        assert(items.take(n) =~= items);
    } else {
        assert(items.drop_last().take(n) =~= items.take(n));
        lemma_totals_prefix(items.drop_last(), n);
    }
}

/// Taking one item out lowers the totals by that item's weight and profit.
pub proof fn lemma_totals_remove(items: Seq<Item>, i: int)
    requires
        0 <= i < items.len(),
    ensures
        total_weight(items.remove(i)) + items[i].weight == total_weight(items),
        total_profit(items.remove(i)) + items[i].profit == total_profit(items),
    decreases items.len(),
{
    if i == items.len() - 1 {
        assert(items.remove(i) =~= items.drop_last());
    } else {
        assert(items.remove(i).drop_last() =~= items.drop_last().remove(i));
        assert(items.remove(i).last() == items.last());
        lemma_totals_remove(items.drop_last(), i);
    }
}

/// The totals of a concatenation are the sums of the parts' totals.
pub proof fn lemma_totals_concat(front: Seq<Item>, back: Seq<Item>)
    ensures
        total_weight(front + back) == total_weight(front) + total_weight(back),
        total_profit(front + back) == total_profit(front) + total_profit(back),
    decreases back.len(),
{
    if back.len() == 0 {
        assert(front + back =~= front);
    } else {
        assert((front + back).drop_last() =~= front + back.drop_last());
        assert((front + back).last() == back.last());
        lemma_totals_concat(front, back.drop_last());
    }
}

/// Putting one item in front raises the totals by that item's weight and
/// profit.
pub proof fn lemma_totals_prepend(first: Item, rest: Seq<Item>)
    ensures
        total_weight(seq![first] + rest) == first.weight + total_weight(rest),
        total_profit(seq![first] + rest) == first.profit + total_profit(rest),
{
    lemma_totals_concat(seq![first], rest);
    assert(seq![first].drop_last() =~= Seq::<Item>::empty());
    assert(total_weight(seq![first].drop_last()) == 0);
    assert(total_profit(seq![first].drop_last()) == 0);
}

/// `selection` takes each item at most as often as `items` holds it: it is a
/// 0/1 selection of the items, in any order.
pub open spec fn is_selection_of(selection: Seq<Item>, items: Seq<Item>) -> bool {
    selection.to_multiset().subset_of(items.to_multiset())
}

/// A sequence holds what it holds behind its first item, and that item once
/// more.
pub proof fn lemma_prepend_multiset(first: Item, rest: Seq<Item>)
    ensures
        (seq![first] + rest).to_multiset() == rest.to_multiset().insert(first),
{
    let nothing = Seq::<Item>::empty();
    lemma_multiset_commutative(seq![first], rest);
    assert(seq![first] =~= nothing.push(first));
    to_multiset_build(nothing, first);
    assert forall|v: Item| nothing.to_multiset().count(v) == 0 by {
        to_multiset_contains(nothing, v);
    }
    assert((seq![first] + rest).to_multiset() =~= rest.to_multiset().insert(first));
}

/// The items at the front are a selection of all items.
pub proof fn lemma_take_is_selection(items: Seq<Item>, n: int)
    requires
        0 <= n <= items.len(),
    ensures
        is_selection_of(items.take(n), items),
    decreases items.len() - n,
{
    if n == items.len() {
        assert(items.take(n) =~= items);
    } else {
        lemma_take_is_selection(items, n + 1);
        assert(items.take(n + 1) =~= items.take(n).push(items[n]));
        to_multiset_build(items.take(n), items[n]);
        assert forall|v: Item|
            items.take(n).to_multiset().count(v) <= items.to_multiset().count(v) by {
            assert(items.take(n + 1).to_multiset().count(v) <= items.to_multiset().count(v));
        }
    }
}

/// A selection of the items neither weighs nor earns more than all of them.
pub proof fn lemma_selection_totals(selection: Seq<Item>, items: Seq<Item>)
    requires
        is_selection_of(selection, items),
    ensures
        total_weight(selection) <= total_weight(items),
        total_profit(selection) <= total_profit(items),
    decreases items.len(),
{
    if items.len() == 0 {
        if selection.len() > 0 {
            to_multiset_contains(selection, selection[0]);
            to_multiset_contains(items, selection[0]);
            assert(selection.contains(selection[0]));
            assert(false);
        }
    } else {
        let item = items.last();
        let rest = items.drop_last();
        assert(items =~= rest.push(item));
        to_multiset_build(rest, item);
        if selection.to_multiset().count(item) <= rest.to_multiset().count(item) {
            assert(is_selection_of(selection, rest)) by {
                assert forall|v: Item|
                    selection.to_multiset().count(v) <= rest.to_multiset().count(v) by {
                    assert(selection.to_multiset().count(v) <= items.to_multiset().count(v));
                }
            }
            lemma_selection_totals(selection, rest);
        } else {
            to_multiset_contains(selection, item);
            assert(selection.contains(item));
            let i = choose|i: int| 0 <= i < selection.len() && selection[i] == item;
            let others = selection.remove(i);
            to_multiset_remove(selection, i);
            lemma_totals_remove(selection, i);
            assert(is_selection_of(others, rest)) by {
                assert forall|v: Item|
                    others.to_multiset().count(v) <= rest.to_multiset().count(v) by {
                    assert(selection.to_multiset().count(v) <= items.to_multiset().count(v));
                }
            }
            lemma_selection_totals(others, rest);
        }
    }
}

/// The profit of `items` is at most `u64::MAX` for each of them.
pub proof fn lemma_total_profit_bound(items: Seq<Item>)
    ensures
        total_profit(items) <= items.len() * u64::MAX,
    decreases items.len(),
{
    if items.len() > 0 {
        lemma_total_profit_bound(items.drop_last());
        assert(total_profit(items) <= items.len() * u64::MAX) by (nonlinear_arith)
            requires
                total_profit(items) <= total_profit(items.drop_last()) + u64::MAX,
                total_profit(items.drop_last()) <= (items.len() - 1) * u64::MAX,
        ;
    }
}

/// The weight of `items` is at most `u64::MAX` for each of them.
pub proof fn lemma_total_weight_bound(items: Seq<Item>)
    ensures
        total_weight(items) <= items.len() * u64::MAX,
    decreases items.len(),
{
    if items.len() > 0 {
        lemma_total_weight_bound(items.drop_last());
        assert(total_weight(items) <= items.len() * u64::MAX) by (nonlinear_arith)
            requires
                total_weight(items) <= total_weight(items.drop_last()) + u64::MAX,
                total_weight(items.drop_last()) <= (items.len() - 1) * u64::MAX,
        ;
    }
}

/// The total weight of the items, in a type that holds it whatever the items.
pub(crate) fn weight_sum(items: &Vec<&Item>) -> (weight: u128)
    ensures
        weight == total_weight(items_of(items@)),
{
    let ghost all = items_of(items@);
    let mut weight: u128 = 0;
    let mut i: usize = 0;
    while i < items.len()
        invariant
            i <= items.len(),
            all == items_of(items@),
            weight == total_weight(all.take(i as int)),
        decreases items.len() - i,
    {
        proof {
            assert(all.take(i + 1).drop_last() =~= all.take(i as int));
            lemma_total_weight_bound(all.take(i as int));
            assert(i * u64::MAX + u64::MAX <= usize::MAX * u64::MAX) by (nonlinear_arith)
                requires
                    i < usize::MAX,
            ;
        }
        weight = weight + items[i].weight as u128;
        i = i + 1;
    }
    proof {
        assert(all.take(i as int) =~= all);
    }
    weight
}

/// The total profit of the items, in a type that holds it whatever the items.
pub(crate) fn profit_sum(items: &Vec<&Item>) -> (profit: u128)
    ensures
        profit == total_profit(items_of(items@)),
{
    let ghost all = items_of(items@);
    let mut profit: u128 = 0;
    let mut i: usize = 0;
    while i < items.len()
        invariant
            i <= items.len(),
            all == items_of(items@),
            profit == total_profit(all.take(i as int)),
        decreases items.len() - i,
    {
        proof {
            assert(all.take(i + 1).drop_last() =~= all.take(i as int));
            lemma_total_profit_bound(all.take(i as int));
            assert(i * u64::MAX + u64::MAX <= usize::MAX * u64::MAX) by (nonlinear_arith)
                requires
                    i < usize::MAX,
            ;
        }
        profit = profit + items[i].profit as u128;
        i = i + 1;
    }
    proof {
        assert(all.take(i as int) =~= all);
    }
    profit
}

/// A copy of `refs`.
pub(crate) fn copy_refs<'a>(refs: &Vec<&'a Item>) -> (copy: Vec<&'a Item>)
    ensures
        copy@ == refs@,
{
    let mut copy: Vec<&'a Item> = Vec::new();
    append_refs(&mut copy, refs);
    assert(Seq::<&Item>::empty() + refs@ =~= refs@);
    copy
}

/// Appends `more` to `target`.
pub(crate) fn append_refs<'a>(target: &mut Vec<&'a Item>, more: &Vec<&'a Item>)
    ensures
        final(target)@ == old(target)@ + more@,
        items_of(final(target)@) == items_of(old(target)@) + items_of(more@),
{
    let mut i: usize = 0;
    assert(target@ =~= old(target)@ + more@.take(0));
    while i < more.len()
        invariant
            i <= more.len(),
            target@ == old(target)@ + more@.take(i as int),
        decreases more.len() - i,
    {
        target.push(more[i]);
        assert(more@.take(i + 1) =~= more@.take(i as int).push(more@[i as int]));
        assert(target@ =~= old(target)@ + more@.take(i + 1));
        i = i + 1;
    }
    assert(more@.take(i as int) =~= more@);
    assert(items_of(target@) =~= items_of(old(target)@) + items_of(more@));
}

} // verus!
