//! Why the fractional relaxation bounds every selection of whole items: the
//! proof that branch and bound may skip a subtree.

use vstd::arithmetic::div_mod::{lemma_div_is_ordered, lemma_div_multiples_vanish};
use vstd::arithmetic::mul::lemma_mul_inequality_converse;
use vstd::prelude::*;
use vstd::seq_lib::{to_multiset_build, to_multiset_contains, to_multiset_remove};
use crate::knapsack::fractional::{
    fractional_pack, lemma_fractional_pack_totals, relaxation_bound, total_effective_profit, whole,
};
use crate::knapsack::item::Item;
use crate::knapsack::order::{
    all_comparable, goes_before, in_ratio_order, lemma_ratio_sorted, ratio_sorted,
};
use crate::knapsack::selection::{
    is_selection_of, lemma_selection_totals, lemma_totals_prepend, lemma_totals_remove,
    total_profit, total_weight,
};
use crate::ratio::{gcd, lemma_gcd_divides, lemma_reduced_same, Ratio, Rational};

verus! {

/// What `item` earns above the rate of `threshold`, scaled by the weight of
/// `threshold`: not negative for an item of lower or equal ratio, not
/// positive for an item of higher or equal ratio.
pub open spec fn gain(item: Item, threshold: Item) -> int {
    threshold.weight * item.profit - threshold.profit * item.weight
}

/// The summed gain of `items`.
pub open spec fn total_gain(items: Seq<Item>, threshold: Item) -> int {
    threshold.weight * total_profit(items) - threshold.profit * total_weight(items)
}

/// How many items at the front of `sorted` a walk packs whole into
/// `capacity`.
pub open spec fn whole_count(sorted: Seq<Item>, capacity: nat) -> nat
    decreases sorted.len(),
{
    if sorted.len() == 0 || capacity == 0 || sorted[0].weight > capacity {
        0
    } else {
        1 + whole_count(sorted.drop_first(), (capacity - sorted[0].weight) as nat)
    }
}

/// Whether the walk over `sorted` with `capacity` has room for every item
/// without weight: there is capacity, or every item has weight.
pub open spec fn weightless_fit(sorted: Seq<Item>, capacity: nat) -> bool {
    capacity > 0 || forall|i: int| 0 <= i < sorted.len() ==> (#[trigger] sorted[i]).weight > 0
}

/// Putting the items in ratio order keeps room for every item without
/// weight.
pub proof fn lemma_weightless_fit_sorted(items: Seq<Item>, capacity: nat)
    requires
        weightless_fit(items, capacity),
    ensures
        weightless_fit(ratio_sorted(items), capacity),
{
    let sorted = ratio_sorted(items);
    lemma_ratio_sorted(items);
    if capacity == 0 {
        assert forall|i: int| 0 <= i < sorted.len() implies (#[trigger] sorted[i]).weight > 0 by {
            to_multiset_contains(sorted, sorted[i]);
            to_multiset_contains(items, sorted[i]);
            assert(sorted.contains(sorted[i]));
            let k = choose|k: int| 0 <= k < items.len() && items[k] == sorted[i];
            assert(items[k].weight > 0);
        }
    }
}

/// The summed gain grows by the gain of an item put behind.
proof fn lemma_total_gain_push(items: Seq<Item>, item: Item, threshold: Item)
    ensures
        total_gain(items.push(item), threshold) == total_gain(items, threshold) + gain(
            item,
            threshold,
        ),
{
    let longer = items.push(item);
    assert(longer.drop_last() =~= items);
    assert(longer.last() == item);
    let (w, p) = (threshold.weight as int, threshold.profit as int);
    let (tp, tw) = (total_profit(items) as int, total_weight(items) as int);
    let (ip, iw) = (item.profit as int, item.weight as int);
    assert(w * (tp + ip) - p * (tw + iw) == (w * tp - p * tw) + (w * ip - p * iw))
        by (nonlinear_arith);
}

/// The summed gain falls by the gain of an item taken out.
proof fn lemma_total_gain_remove(items: Seq<Item>, i: int, threshold: Item)
    requires
        0 <= i < items.len(),
    ensures
        total_gain(items.remove(i), threshold) + gain(items[i], threshold) == total_gain(
            items,
            threshold,
        ),
{
    lemma_totals_remove(items, i);
    let (w, p) = (threshold.weight as int, threshold.profit as int);
    let (tp, tw) = (total_profit(items.remove(i)) as int, total_weight(items.remove(i)) as int);
    let (ip, iw) = (items[i].profit as int, items[i].weight as int);
    assert(w * (tp + ip) - p * (tw + iw) == (w * tp - p * tw) + (w * ip - p * iw))
        by (nonlinear_arith);
}

/// Where the first `count` items gain and the others lose, no selection
/// gains more than the first `count` items together.
proof fn lemma_gain_of_selection(
    items: Seq<Item>,
    count: int,
    threshold: Item,
    selection: Seq<Item>,
)
    requires
        0 <= count <= items.len(),
        forall|i: int| 0 <= i < count ==> gain(#[trigger] items[i], threshold) >= 0,
        forall|i: int| count <= i < items.len() ==> gain(#[trigger] items[i], threshold) <= 0,
        is_selection_of(selection, items),
    ensures
        total_gain(selection, threshold) <= total_gain(items.take(count), threshold),
    decreases items.len(),
{
    if items.len() == 0 {
        if selection.len() > 0 {
            to_multiset_contains(selection, selection[0]);
            to_multiset_contains(items, selection[0]);
            assert(selection.contains(selection[0]));
            assert(false);
        }
        assert(items.take(count) =~= selection);
    } else {
        let last = items.last();
        let front = items.drop_last();
        assert(items =~= front.push(last));
        to_multiset_build(front, last);
        let fewer = if count == items.len() {
            count - 1
        } else {
            count
        };
        assert forall|i: int| 0 <= i < fewer implies gain(#[trigger] front[i], threshold)
            >= 0 by {
            assert(front[i] == items[i]);
        }
        assert forall|i: int| fewer <= i < front.len() implies gain(
            #[trigger] front[i],
            threshold,
        ) <= 0 by {
            assert(front[i] == items[i]);
        }
        if count == items.len() {
            assert(items.take(count) =~= front.take(fewer).push(last));
            lemma_total_gain_push(front.take(fewer), last, threshold);
            assert(gain(items[items.len() - 1], threshold) >= 0);
        } else {
            assert(items.take(count) =~= front.take(fewer));
            assert(gain(items[items.len() - 1], threshold) <= 0);
        }
        if selection.to_multiset().count(last) <= front.to_multiset().count(last) {
            assert(is_selection_of(selection, front)) by {
                assert forall|v: Item|
                    selection.to_multiset().count(v) <= front.to_multiset().count(v) by {
                    assert(selection.to_multiset().count(v) <= items.to_multiset().count(v));
                }
            }
            lemma_gain_of_selection(front, fewer, threshold, selection);
        } else {
            to_multiset_contains(selection, last);
            assert(selection.contains(last));
            let i = choose|i: int| 0 <= i < selection.len() && selection[i] == last;
            let others = selection.remove(i);
            to_multiset_remove(selection, i);
            lemma_total_gain_remove(selection, i, threshold);
            assert(is_selection_of(others, front)) by {
                assert forall|v: Item|
                    others.to_multiset().count(v) <= front.to_multiset().count(v) by {
                    assert(selection.to_multiset().count(v) <= items.to_multiset().count(v));
                }
            }
            lemma_gain_of_selection(front, fewer, threshold, others);
        }
    }
}

/// What a walk over `sorted` with `capacity` comes to: the items packed
/// whole stay within the capacity; the walk ends behind the last item, with
/// no capacity left, or at an item that weighs more than what is left; and
/// the relaxation bound is the profit of the whole items plus the floored
/// profit of the portion of the next item that fills the capacity.
pub proof fn lemma_walk(sorted: Seq<Item>, capacity: nat)
    ensures
        whole_count(sorted, capacity) <= sorted.len(),
        total_weight(sorted.take(whole_count(sorted, capacity) as int)) <= capacity,
        ({
            let count = whole_count(sorted, capacity) as int;
            let left = capacity - total_weight(sorted.take(count));
            &&& count < sorted.len() && left > 0 ==> sorted[count].weight > left
            &&& count < sorted.len() && left == 0 && capacity > 0 ==> count > 0 && sorted[count
                - 1].weight > 0
            &&& relaxation_bound(sorted, capacity) == total_profit(sorted.take(count)) + if count
                < sorted.len() && left > 0 {
                sorted[count].profit * left / sorted[count].weight as int
            } else {
                0
            }
        }),
    decreases sorted.len(),
{
    let count = whole_count(sorted, capacity) as int;
    if sorted.len() == 0 || capacity == 0 || sorted[0].weight > capacity {
        assert(sorted.take(0) =~= Seq::<Item>::empty());
    } else {
        let first = sorted[0];
        let rest = sorted.drop_first();
        let room = (capacity - first.weight) as nat;
        lemma_walk(rest, room);
        let inner = whole_count(rest, room) as int;
        assert(sorted.take(count) =~= seq![first] + rest.take(inner));
        lemma_totals_prepend(first, rest.take(inner));
        if count < sorted.len() {
            assert(sorted[count] == rest[inner]);
        }
        if inner > 0 {
            assert(sorted[count - 1] == rest[inner - 1]);
        }
    }
}

/// Where a walk ends before the last item, the item it ends at has weight,
/// the items packed whole gain against it and the others lose.
proof fn lemma_threshold(sorted: Seq<Item>, capacity: nat)
    requires
        all_comparable(sorted),
        in_ratio_order(sorted),
        weightless_fit(sorted, capacity),
        whole_count(sorted, capacity) < sorted.len(),
    ensures
        sorted[whole_count(sorted, capacity) as int].weight > 0,
        forall|i: int|
            0 <= i < whole_count(sorted, capacity) ==> gain(
                #[trigger] sorted[i],
                sorted[whole_count(sorted, capacity) as int],
            ) >= 0,
        forall|i: int|
            whole_count(sorted, capacity) <= i < sorted.len() ==> gain(
                #[trigger] sorted[i],
                sorted[whole_count(sorted, capacity) as int],
            ) <= 0,
{
    let count = whole_count(sorted, capacity) as int;
    let left = capacity - total_weight(sorted.take(count));
    let threshold = sorted[count];
    lemma_walk(sorted, capacity);
    assert forall|i: int| 0 <= i < count implies gain(#[trigger] sorted[i], threshold) >= 0 by {
        assert(!goes_before(sorted[count], sorted[i]));
        assert(threshold.profit * sorted[i].weight == sorted[i].weight * threshold.profit)
            by (nonlinear_arith);
    }
    assert forall|i: int| count <= i < sorted.len() implies gain(
        #[trigger] sorted[i],
        threshold,
    ) <= 0 by {
        if i > count {
            assert(!goes_before(sorted[i], sorted[count]));
        }
        assert(threshold.profit * sorted[i].weight == sorted[i].weight * threshold.profit)
            by (nonlinear_arith);
    }
    if left == 0 && capacity > 0 {
        let before = sorted[count - 1];
        assert(!goes_before(sorted[count], sorted[count - 1]));
        assert(before.profit > 0 && threshold.profit > 0);
        assert(before.weight * threshold.profit > 0) by (nonlinear_arith)
            requires
                before.weight > 0,
                threshold.profit > 0,
        ;
        assert(threshold.weight * before.profit >= before.weight * threshold.profit);
        if threshold.weight == 0 {
            assert(threshold.weight * before.profit == 0) by (nonlinear_arith)
                requires
                    threshold.weight == 0,
            ;
        }
    }
}

/// No selection of whole items of `sorted` within `capacity` earns more than
/// the relaxation bound.
pub proof fn lemma_relaxation_dominates(sorted: Seq<Item>, capacity: nat, selection: Seq<Item>)
    requires
        all_comparable(sorted),
        in_ratio_order(sorted),
        weightless_fit(sorted, capacity),
        is_selection_of(selection, sorted),
        total_weight(selection) <= capacity,
    ensures
        total_profit(selection) <= relaxation_bound(sorted, capacity),
{
    let count = whole_count(sorted, capacity) as int;
    let whole = sorted.take(count);
    let left = capacity - total_weight(whole);
    lemma_walk(sorted, capacity);
    if count == sorted.len() {
        assert(whole =~= sorted);
        lemma_selection_totals(selection, sorted);
    } else {
        let threshold = sorted[count];
        lemma_threshold(sorted, capacity);
        lemma_gain_of_selection(sorted, count, threshold, selection);
        let w = threshold.weight as int;
        let p = threshold.profit as int;
        let extra = total_profit(selection) - total_profit(whole);
        assert(w * extra <= p * left) by (nonlinear_arith)
            requires
                w * total_profit(selection) - p * total_weight(selection) <= w * total_profit(
                    whole,
                ) - p * total_weight(whole),
                extra == total_profit(selection) - total_profit(whole),
                left == capacity - total_weight(whole),
                total_weight(selection) <= capacity,
                p >= 0,
        ;
        lemma_div_is_ordered(w * extra, p * left, w);
        lemma_div_multiples_vanish(extra, w);
        if left == 0 {
            assert(p * left == 0);
            assert(0int / w == 0) by {
                vstd::arithmetic::div_mod::lemma_div_basics(w);
            }
        }
    }
}

/// Whether `amounts` and `scale` describe portions of the items: of item `i`
/// the portion `amounts[i] / scale`, which is at most 1.
pub open spec fn is_fractional_selection(items: Seq<Item>, amounts: Seq<nat>, scale: nat) -> bool {
    &&& scale > 0
    &&& amounts.len() == items.len()
    &&& forall|i: int| 0 <= i < amounts.len() ==> #[trigger] amounts[i] <= scale
}

/// The summed weight of the portions, times their scale.
pub open spec fn scaled_weight(items: Seq<Item>, amounts: Seq<nat>) -> nat
    decreases items.len(),
{
    if items.len() == 0 {
        0
    } else {
        scaled_weight(items.drop_last(), amounts.drop_last()) + amounts.last()
            * (items.last().weight as nat)
    }
}

/// The summed profit of the portions, times their scale.
pub open spec fn scaled_profit(items: Seq<Item>, amounts: Seq<nat>) -> nat
    decreases items.len(),
{
    if items.len() == 0 {
        0
    } else {
        scaled_profit(items.drop_last(), amounts.drop_last()) + amounts.last()
            * (items.last().profit as nat)
    }
}

/// Where the first `count` items gain and the others lose, no portions gain
/// more than the first `count` items taken whole.
proof fn lemma_gain_of_portions(
    items: Seq<Item>,
    count: int,
    threshold: Item,
    amounts: Seq<nat>,
    scale: nat,
)
    requires
        0 <= count <= items.len(),
        forall|i: int| 0 <= i < count ==> gain(#[trigger] items[i], threshold) >= 0,
        forall|i: int| count <= i < items.len() ==> gain(#[trigger] items[i], threshold) <= 0,
        is_fractional_selection(items, amounts, scale),
    ensures
        threshold.weight * scaled_profit(items, amounts) - threshold.profit * scaled_weight(
            items,
            amounts,
        ) <= scale * total_gain(items.take(count), threshold),
    decreases items.len(),
{
    if items.len() == 0 {
        assert(items.take(count) =~= items);
        assert(threshold.weight * 0 - threshold.profit * 0 <= scale * (threshold.weight * 0
            - threshold.profit * 0)) by (nonlinear_arith);
    } else {
        let last = items.last();
        let front = items.drop_last();
        let amount = amounts.last();
        let fewer = if count == items.len() {
            count - 1
        } else {
            count
        };
        assert(is_fractional_selection(front, amounts.drop_last(), scale)) by {
            assert forall|i: int| 0 <= i < amounts.drop_last().len() implies (
            #[trigger] amounts.drop_last()[i]) <= scale by {
                assert(amounts.drop_last()[i] == amounts[i]);
            }
        }
        assert forall|i: int| 0 <= i < fewer implies gain(#[trigger] front[i], threshold)
            >= 0 by {
            assert(front[i] == items[i]);
        }
        assert forall|i: int| fewer <= i < front.len() implies gain(
            #[trigger] front[i],
            threshold,
        ) <= 0 by {
            assert(front[i] == items[i]);
        }
        lemma_gain_of_portions(front, fewer, threshold, amounts.drop_last(), scale);
        let (w, p) = (threshold.weight as int, threshold.profit as int);
        let g = gain(last, threshold);
        let front_profit = scaled_profit(front, amounts.drop_last()) as int;
        let front_weight = scaled_weight(front, amounts.drop_last()) as int;
        assert(amount == amounts[amounts.len() - 1]);
        assert(scaled_profit(items, amounts) == front_profit + amount * last.profit);
        assert(scaled_weight(items, amounts) == front_weight + amount * last.weight);
        assert(w * (front_profit + amount * last.profit) - p * (front_weight + amount
            * last.weight) == (w * front_profit - p * front_weight) + amount * g)
            by (nonlinear_arith)
            requires
                g == w * last.profit - p * last.weight,
        ;
        if count == items.len() {
            assert(items.take(count) =~= front.take(fewer).push(last));
            assert(front.take(fewer) =~= front);
            lemma_total_gain_push(front, last, threshold);
            assert(g == gain(items[items.len() - 1], threshold));
            assert(amount * g <= scale * g) by (nonlinear_arith)
                requires
                    amount <= scale,
                    g >= 0,
            ;
            assert(scale * (total_gain(front, threshold) + g) == scale * total_gain(
                front,
                threshold,
            ) + scale * g) by (nonlinear_arith);
        } else {
            assert(items.take(count) =~= front.take(fewer));
            assert(g == gain(items[items.len() - 1], threshold));
            assert(amount * g <= 0) by (nonlinear_arith)
                requires
                    amount >= 0,
                    g <= 0,
            ;
        }
    }
}

/// What the fractional pack earns, exactly: where the walk ends at an item
/// with capacity left, the profit of the whole items plus the profit of that
/// item at the rate of what is left to its weight; otherwise the profit of
/// the whole items.
proof fn lemma_fractional_value(sorted: Seq<Item>, capacity: nat)
    requires
        capacity <= u64::MAX,
    ensures
        total_effective_profit(fractional_pack(sorted, capacity)).den > 0,
        ({
            let count = whole_count(sorted, capacity) as int;
            let whole = sorted.take(count);
            let left = capacity - total_weight(whole);
            let earned = total_effective_profit(fractional_pack(sorted, capacity));
            if count < sorted.len() && left > 0 {
                earned.num * sorted[count].weight == (sorted[count].weight * total_profit(whole)
                    + sorted[count].profit * left) * earned.den
            } else {
                earned.num == total_profit(whole) * earned.den
            }
        }),
    decreases sorted.len(),
{
    let count = whole_count(sorted, capacity) as int;
    let packed = fractional_pack(sorted, capacity);
    let earned = total_effective_profit(packed);
    lemma_walk(sorted, capacity);
    lemma_fractional_pack_totals(sorted, capacity);
    if sorted.len() == 0 || capacity == 0 {
        assert(sorted.take(0) =~= Seq::<Item>::empty());
        assert(earned.num == total_profit(sorted.take(count)) * earned.den) by (nonlinear_arith)
            requires
                earned.num == 0,
                total_profit(sorted.take(count)) == 0,
        ;
    } else {
        let first = sorted[0];
        let p = first.profit as int;
        if first.weight <= capacity {
            let rest = sorted.drop_first();
            let room = (capacity - first.weight) as nat;
            let inner_count = whole_count(rest, room) as int;
            let inner = total_effective_profit(fractional_pack(rest, room));
            lemma_fractional_value(rest, room);
            lemma_walk(rest, room);
            assert(packed[0] == (first, whole()));
            assert(packed.drop_first() =~= fractional_pack(rest, room));
            assert(sorted.take(count) =~= seq![first] + rest.take(inner_count));
            lemma_totals_prepend(first, rest.take(inner_count));
            let inner_profit = total_profit(rest.take(inner_count)) as int;
            let left = room - total_weight(rest.take(inner_count));
            assert(earned.den == inner.den && earned.num == inner.num + p * inner.den)
                by (nonlinear_arith)
                requires
                    earned.den == 1 * inner.den,
                    earned.num == (p * 1) * inner.den + inner.num * 1,
            ;
            if inner_count < rest.len() && left > 0 {
                let threshold = rest[inner_count];
                assert(sorted[count] == threshold);
                let (tw, tp) = (threshold.weight as int, threshold.profit as int);
                assert(earned.num * tw == (tw * (p + inner_profit) + tp * left) * earned.den)
                    by (nonlinear_arith)
                    requires
                        earned.den == inner.den,
                        earned.num == inner.num + p * inner.den,
                        inner.num * tw == (tw * inner_profit + tp * left) * inner.den,
                ;
            } else {
                assert(earned.num == (p + inner_profit) * earned.den) by (nonlinear_arith)
                    requires
                        earned.den == inner.den,
                        earned.num == inner.num + p * inner.den,
                        inner.num == inner_profit * inner.den,
                ;
            }
        } else {
            let weight = first.weight as nat;
            let g = gcd(capacity, weight);
            lemma_gcd_divides(capacity, weight);
            lemma_reduced_same(capacity, weight);
            let n = capacity / g;
            let d = weight / g;
            let portion = Ratio::reduced(capacity, weight);
            assert(portion.numer == n && portion.denom == d);
            assert(packed[0] == (first, portion));
            let nothing = Seq::<(Item, Ratio)>::empty();
            assert(packed.drop_first() =~= nothing);
            assert(total_effective_profit(nothing) == Rational::from_int(0));
            assert(sorted.take(0) =~= Seq::<Item>::empty());
            assert(earned.num * weight == (weight * 0 + p * capacity) * earned.den)
                by (nonlinear_arith)
                requires
                    earned.den == d * 1,
                    earned.num == (p * n) * 1 + 0 * d,
                    capacity == n * g,
                    weight == d * g,
            ;
        }
    }
}

/// Portions of the items earn no more than the items taken whole.
proof fn lemma_scaled_profit_bound(items: Seq<Item>, amounts: Seq<nat>, scale: nat)
    requires
        is_fractional_selection(items, amounts, scale),
    ensures
        scaled_profit(items, amounts) <= scale * total_profit(items),
    decreases items.len(),
{
    if items.len() > 0 {
        let last = items.last();
        let amount = amounts.last();
        assert(is_fractional_selection(items.drop_last(), amounts.drop_last(), scale)) by {
            assert forall|i: int| 0 <= i < amounts.drop_last().len() implies (
            #[trigger] amounts.drop_last()[i]) <= scale by {
                assert(amounts.drop_last()[i] == amounts[i]);
            }
        }
        lemma_scaled_profit_bound(items.drop_last(), amounts.drop_last(), scale);
        assert(amount == amounts[amounts.len() - 1]);
        assert(amount * last.profit <= scale * last.profit) by (nonlinear_arith)
            requires
                amount <= scale,
        ;
        assert(scale * (total_profit(items.drop_last()) + last.profit) == scale * total_profit(
            items.drop_last(),
        ) + scale * last.profit) by (nonlinear_arith);
    }
}

/// The fractional pack is optimal for the continuous relaxation: no portions
/// of the items that weigh at most the capacity earn more than it does,
/// provided there is capacity or every item has weight.
pub proof fn lemma_fractional_pack_is_optimal(
    sorted: Seq<Item>,
    capacity: nat,
    amounts: Seq<nat>,
    scale: nat,
)
    requires
        all_comparable(sorted),
        in_ratio_order(sorted),
        weightless_fit(sorted, capacity),
        capacity <= u64::MAX,
        is_fractional_selection(sorted, amounts, scale),
        scaled_weight(sorted, amounts) <= capacity * scale,
    ensures
        (Rational { num: scaled_profit(sorted, amounts) as int, den: scale as int }).le(
            total_effective_profit(fractional_pack(sorted, capacity)),
        ),
{
    let count = whole_count(sorted, capacity) as int;
    let whole = sorted.take(count);
    let left = capacity - total_weight(whole);
    let earned = total_effective_profit(fractional_pack(sorted, capacity));
    let taken = scaled_profit(sorted, amounts) as int;
    let whole_profit = total_profit(whole) as int;
    lemma_walk(sorted, capacity);
    lemma_fractional_value(sorted, capacity);
    if count == sorted.len() {
        assert(whole =~= sorted);
        lemma_scaled_profit_bound(sorted, amounts, scale);
        assert(taken * earned.den <= earned.num * scale) by (nonlinear_arith)
            requires
                taken <= scale * whole_profit,
                earned.num == whole_profit * earned.den,
                earned.den > 0,
        ;
    } else {
        let threshold = sorted[count];
        let (w, p) = (threshold.weight as int, threshold.profit as int);
        lemma_threshold(sorted, capacity);
        lemma_gain_of_portions(sorted, count, threshold, amounts, scale);
        assert(w * taken <= scale * (w * whole_profit + p * left)) by (nonlinear_arith)
            requires
                w * taken - p * scaled_weight(sorted, amounts) <= scale * (w * whole_profit - p
                    * total_weight(whole)),
                scaled_weight(sorted, amounts) <= capacity * scale,
                left == capacity - total_weight(whole),
                p >= 0,
        ;
        if left > 0 {
            assert((taken * earned.den) * w <= (earned.num * scale) * w) by (nonlinear_arith)
                requires
                    w * taken <= scale * (w * whole_profit + p * left),
                    earned.num * w == (w * whole_profit + p * left) * earned.den,
                    earned.den > 0,
            ;
            lemma_mul_inequality_converse(taken * earned.den, earned.num * scale, w);
        } else {
            assert(taken * w <= (scale * whole_profit) * w) by (nonlinear_arith)
                requires
                    w * taken <= scale * (w * whole_profit + p * left),
                    left == 0,
            ;
            lemma_mul_inequality_converse(taken, scale * whole_profit, w);
            assert(taken * earned.den <= earned.num * scale) by (nonlinear_arith)
                requires
                    taken <= scale * whole_profit,
                    earned.num == whole_profit * earned.den,
                    earned.den > 0,
            ;
        }
    }
}

} // verus!
