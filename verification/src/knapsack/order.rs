//! The order in which the greedy solvers consider the items: ascending by
//! weight/profit ratio, so that the most valuable items per unit of weight
//! come first. Items of equal ratio stand by ascending id, and items that
//! agree in both keep the order of the input.

use vstd::prelude::*;
use vstd::seq_lib::{to_multiset_build, to_multiset_contains, to_multiset_len};
use crate::knapsack::item::{Item, KnapsackError};
use crate::knapsack::selection::{is_selection_of, items_of, lemma_prepend_multiset};
use crate::ratio::fraction_less;

verus! {

/// Whether every item has a positive profit, and with it a weight/profit ratio.
pub open spec fn all_comparable(items: Seq<Item>) -> bool {
    forall|i: int| 0 <= i < items.len() ==> (#[trigger] items[i]).profit > 0
}

/// Whether the weight/profit ratio of `a` is lower than that of `b`, for
/// items of positive profit: `a.weight / a.profit < b.weight / b.profit`.
pub open spec fn ratio_lt(a: Item, b: Item) -> bool {
    a.weight * b.profit < b.weight * a.profit
}

/// Whether `a` goes before `b` in the ratio order: its ratio is lower, or the
/// ratios are equal and its id is lower.
pub open spec fn goes_before(a: Item, b: Item) -> bool {
    ratio_lt(a, b) || (!ratio_lt(b, a) && a.id < b.id)
}

/// `sorted` with `x` put in front of the trailing items that `x` goes before.
pub open spec fn insert_by_ratio(sorted: Seq<Item>, x: Item) -> Seq<Item>
    decreases sorted.len(),
{
    if sorted.len() > 0 && goes_before(x, sorted.last()) {
        insert_by_ratio(sorted.drop_last(), x).push(sorted.last())
    } else {
        sorted.push(x)
    }
}

/// The items in ratio order: each item in turn is put into the order of the
/// items before it.
pub open spec fn ratio_sorted(items: Seq<Item>) -> Seq<Item>
    decreases items.len(),
{
    if items.len() == 0 {
        Seq::empty()
    } else {
        insert_by_ratio(ratio_sorted(items.drop_last()), items.last())
    }
}

/// Whether no later item of `sorted` goes before an earlier one.
pub open spec fn in_ratio_order(sorted: Seq<Item>) -> bool {
    forall|i: int, j: int| 0 <= i < j < sorted.len() ==> !goes_before(sorted[j], sorted[i])
}

/// `ratio_lt` is transitive on items of positive profit.
pub proof fn lemma_ratio_lt_transitive(a: Item, b: Item, c: Item)
    requires
        a.profit > 0,
        b.profit > 0,
        c.profit > 0,
    ensures
        ratio_lt(a, b) && !ratio_lt(c, b) ==> ratio_lt(a, c),
        !ratio_lt(b, a) && ratio_lt(b, c) ==> ratio_lt(a, c),
        !ratio_lt(b, a) && !ratio_lt(c, b) ==> !ratio_lt(c, a),
{
    let (wa, pa) = (a.weight as int, a.profit as int);
    let (wb, pb) = (b.weight as int, b.profit as int);
    let (wc, pc) = (c.weight as int, c.profit as int);
    // a < b and b <= c
    assert(wa * pb < wb * pa && wb * pc <= wc * pb ==> wa * pc < wc * pa) by (nonlinear_arith)
        requires
            pa > 0,
            pb > 0,
            pc > 0,
            wa >= 0,
            wb >= 0,
            wc >= 0,
    {
        if wa * pb < wb * pa && wb * pc <= wc * pb {
            assert(wa * pb * pc < wb * pa * pc);
            assert(wb * pc * pa <= wc * pb * pa);
            assert(wa * pc * pb < wc * pa * pb);
        }
    }
    // a <= b and b < c
    assert(wa * pb <= wb * pa && wb * pc < wc * pb ==> wa * pc < wc * pa) by (nonlinear_arith)
        requires
            pa > 0,
            pb > 0,
            pc > 0,
            wa >= 0,
            wb >= 0,
            wc >= 0,
    {
        if wa * pb <= wb * pa && wb * pc < wc * pb {
            assert(wa * pb * pc <= wb * pa * pc);
            assert(wb * pc * pa < wc * pb * pa);
            assert(wa * pc * pb < wc * pa * pb);
        }
    }
    // a <= b and b <= c
    assert(wa * pb <= wb * pa && wb * pc <= wc * pb ==> wa * pc <= wc * pa) by (nonlinear_arith)
        requires
            pa > 0,
            pb > 0,
            pc > 0,
            wa >= 0,
            wb >= 0,
            wc >= 0,
    {
        if wa * pb <= wb * pa && wb * pc <= wc * pb {
            assert(wa * pb * pc <= wb * pa * pc);
            assert(wb * pc * pa <= wc * pb * pa);
            assert(wa * pc * pb <= wc * pa * pb);
        }
    }
}

/// If `b` does not go before `a` and `c` does not go before `b`, then `c`
/// does not go before `a`.
pub proof fn lemma_order_transitive(a: Item, b: Item, c: Item)
    requires
        a.profit > 0,
        b.profit > 0,
        c.profit > 0,
        !goes_before(b, a),
        !goes_before(c, b),
    ensures
        !goes_before(c, a),
{
    lemma_ratio_lt_transitive(a, b, c);
    lemma_ratio_lt_transitive(c, b, a);
    lemma_ratio_lt_transitive(b, a, c);
    lemma_ratio_lt_transitive(b, c, a);
    lemma_ratio_lt_transitive(c, a, b);
    lemma_ratio_lt_transitive(a, c, b);
}

/// Where `x` lands: behind the items it does not go before and in front of
/// the trailing items it goes before.
pub proof fn lemma_insert_position(sorted: Seq<Item>, x: Item, pos: int)
    requires
        0 <= pos <= sorted.len(),
        forall|k: int| pos <= k < sorted.len() ==> goes_before(x, #[trigger] sorted[k]),
        pos > 0 ==> !goes_before(x, sorted[pos - 1]),
    ensures
        insert_by_ratio(sorted, x) == sorted.insert(pos, x),
    decreases sorted.len(),
{
    if pos == sorted.len() {
        assert(sorted.insert(pos, x) =~= sorted.push(x));
    } else {
        assert(goes_before(x, sorted[sorted.len() - 1]));
        lemma_insert_position(sorted.drop_last(), x, pos);
        assert(sorted.drop_last().insert(pos, x).push(sorted.last()) =~= sorted.insert(pos, x));
    }
}

/// Putting an item into an order gives the order one more item and keeps
/// what it held.
pub proof fn lemma_insert_by_ratio(sorted: Seq<Item>, x: Item)
    ensures
        insert_by_ratio(sorted, x).len() == sorted.len() + 1,
        insert_by_ratio(sorted, x).to_multiset() == sorted.to_multiset().insert(x),
        all_comparable(sorted) && x.profit > 0 ==> all_comparable(insert_by_ratio(sorted, x)),
        all_comparable(sorted) && x.profit > 0 && in_ratio_order(sorted) ==> in_ratio_order(
            insert_by_ratio(sorted, x),
        ),
    decreases sorted.len(),
{
    let out = insert_by_ratio(sorted, x);
    if sorted.len() > 0 && goes_before(x, sorted.last()) {
        let front = sorted.drop_last();
        let last = sorted.last();
        let inner = insert_by_ratio(front, x);
        lemma_insert_by_ratio(front, x);
        assert(sorted =~= front.push(last));
        to_multiset_build(front, last);
        to_multiset_build(inner, last);
        assert(out.to_multiset() =~= sorted.to_multiset().insert(x));
        if all_comparable(sorted) && x.profit > 0 {
            assert(all_comparable(front)) by {
                assert forall|i: int| 0 <= i < front.len() implies (#[trigger] front[i]).profit
                    > 0 by {
                    assert(front[i] == sorted[i]);
                }
            }
            assert(all_comparable(out)) by {
                assert forall|i: int| 0 <= i < out.len() implies (#[trigger] out[i]).profit
                    > 0 by {
                    if i < inner.len() {
                        assert(out[i] == inner[i]);
                    } else {
                        assert(out[i] == last);
                        assert(last == sorted[sorted.len() - 1]);
                    }
                }
            }
            if in_ratio_order(sorted) {
                assert(in_ratio_order(front)) by {
                    assert forall|i: int, j: int| 0 <= i < j < front.len() implies !goes_before(
                        front[j],
                        front[i],
                    ) by {
                        assert(front[i] == sorted[i] && front[j] == sorted[j]);
                    }
                }
                assert forall|i: int, j: int| 0 <= i < j < out.len() implies !goes_before(
                    out[j],
                    out[i],
                ) by {
                    if j < inner.len() {
                        assert(out[i] == inner[i] && out[j] == inner[j]);
                    } else {
                        // out[j] is the old last item; out[i] is x or an item of front.
                        assert(out[j] == last);
                        assert(out[i] == inner[i]);
                        inner.to_multiset_ensures();
                        front.to_multiset_ensures();
                        assert(inner.contains(inner[i]));
                        assert(inner.to_multiset().count(inner[i]) > 0);
                        if inner[i] == x {
                            lemma_goes_before_asymmetric(x, last);
                        } else {
                            assert(front.to_multiset().count(inner[i]) > 0);
                            assert(front.contains(inner[i]));
                            let k = choose|k: int| 0 <= k < front.len() && front[k] == inner[i];
                            assert(sorted[k] == inner[i]);
                            assert(!goes_before(sorted[sorted.len() - 1], sorted[k]));
                        }
                    }
                }
            }
        }
    } else {
        to_multiset_build(sorted, x);
        if all_comparable(sorted) && x.profit > 0 {
            assert(all_comparable(out)) by {
                assert forall|i: int| 0 <= i < out.len() implies (#[trigger] out[i]).profit
                    > 0 by {
                    if i < sorted.len() {
                        assert(out[i] == sorted[i]);
                    }
                }
            }
            if in_ratio_order(sorted) {
                assert forall|i: int, j: int| 0 <= i < j < out.len() implies !goes_before(
                    out[j],
                    out[i],
                ) by {
                    if j < sorted.len() {
                        assert(out[i] == sorted[i] && out[j] == sorted[j]);
                    } else {
                        // out[j] is x, which does not go before the last item.
                        assert(out[i] == sorted[i]);
                        let last = sorted[sorted.len() - 1];
                        if i < sorted.len() - 1 {
                            assert(!goes_before(last, sorted[i]));
                            assert(sorted[i].profit > 0 && last.profit > 0);
                            lemma_order_transitive(sorted[i], last, x);
                        }
                    }
                }
            }
        }
    }
}

/// Of two items, at most one goes before the other.
pub proof fn lemma_goes_before_asymmetric(a: Item, b: Item)
    ensures
        goes_before(a, b) ==> !goes_before(b, a),
{
}

/// The ratio order holds exactly the items, and no later item of it goes
/// before an earlier one.
pub proof fn lemma_ratio_sorted(items: Seq<Item>)
    ensures
        ratio_sorted(items).len() == items.len(),
        ratio_sorted(items).to_multiset() == items.to_multiset(),
        all_comparable(items) ==> all_comparable(ratio_sorted(items)),
        all_comparable(items) ==> in_ratio_order(ratio_sorted(items)),
    decreases items.len(),
{
    if items.len() == 0 {
        assert(ratio_sorted(items) =~= items);
    } else {
        let front = items.drop_last();
        lemma_ratio_sorted(front);
        lemma_insert_by_ratio(ratio_sorted(front), items.last());
        assert(items =~= front.push(items.last()));
        to_multiset_build(front, items.last());
        if all_comparable(items) {
            assert(all_comparable(front)) by {
                assert forall|i: int| 0 <= i < front.len() implies (#[trigger] front[i]).profit
                    > 0 by {
                    assert(front[i] == items[i]);
                }
            }
            assert(items.last() == items[items.len() - 1]);
        }
    }
}

/// Whether no two items share an id.
pub open spec fn distinct_ids(items: Seq<Item>) -> bool {
    forall|i: int, j: int| 0 <= i < j < items.len() ==> items[i].id != items[j].id
}

/// A selection of items with distinct ids has distinct ids: it holds no item
/// twice.
pub proof fn lemma_selection_has_distinct_ids(items: Seq<Item>, selection: Seq<Item>)
    requires
        distinct_ids(items),
        is_selection_of(selection, items),
    ensures
        distinct_ids(selection),
        selection.no_duplicates(),
{
    assert(items.no_duplicates()) by {
        assert forall|i: int, j: int|
            0 <= i < items.len() && 0 <= j < items.len() && i != j implies items[i]
            != items[j] by {
            if i < j {
                assert(items[i].id != items[j].id);
            } else {
                assert(items[j].id != items[i].id);
            }
        }
    }
    items.lemma_multiset_has_no_duplicates();
    assert forall|v: Item| selection.to_multiset().contains(v) implies selection.to_multiset().count(
        v,
    ) == 1 by {
        assert(selection.to_multiset().count(v) <= items.to_multiset().count(v));
    }
    selection.lemma_multiset_has_no_duplicates_conv();
    assert forall|i: int, j: int| 0 <= i < j < selection.len() implies selection[i].id
        != selection[j].id by {
        to_multiset_contains(selection, selection[i]);
        to_multiset_contains(items, selection[i]);
        to_multiset_contains(selection, selection[j]);
        to_multiset_contains(items, selection[j]);
        assert(selection.contains(selection[i]) && selection.contains(selection[j]));
        assert(selection.to_multiset().count(selection[i]) <= items.to_multiset().count(
            selection[i],
        ));
        assert(selection.to_multiset().count(selection[j]) <= items.to_multiset().count(
            selection[j],
        ));
        let p = choose|p: int| 0 <= p < items.len() && items[p] == selection[i];
        let q = choose|q: int| 0 <= q < items.len() && items[q] == selection[j];
        assert(selection[i] != selection[j]);
        if p < q {
            assert(items[p].id != items[q].id);
        } else {
            assert(items[q].id != items[p].id);
        }
    }
}

/// Two arrangements of the same items with distinct ids that are both in
/// ratio order are the same arrangement.
pub proof fn lemma_ordered_arrangements_agree(first: Seq<Item>, second: Seq<Item>)
    requires
        all_comparable(first),
        distinct_ids(first),
        in_ratio_order(first),
        in_ratio_order(second),
        first.to_multiset() == second.to_multiset(),
    ensures
        first == second,
    decreases first.len(),
{
    to_multiset_len(first);
    to_multiset_len(second);
    if first.len() == 0 {
        assert(first =~= second);
    } else {
        let a = first[0];
        let b = second[0];
        if a != b {
            to_multiset_contains(first, a);
            to_multiset_contains(second, a);
            to_multiset_contains(first, b);
            to_multiset_contains(second, b);
            assert(first.contains(a) && second.contains(b));
            let k = choose|k: int| 0 <= k < second.len() && second[k] == a;
            let m = choose|m: int| 0 <= m < first.len() && first[m] == b;
            assert(!goes_before(second[k], second[0]));
            assert(!goes_before(first[m], first[0]));
            assert(first[0].id != first[m].id);
            assert(false);
        }
        let first_rest = first.drop_first();
        let second_rest = second.drop_first();
        assert(first =~= seq![a] + first_rest);
        assert(second =~= seq![a] + second_rest);
        lemma_prepend_multiset(a, first_rest);
        lemma_prepend_multiset(a, second_rest);
        assert(first_rest.to_multiset() =~= second_rest.to_multiset()) by {
            assert forall|v: Item|
                first_rest.to_multiset().count(v) == second_rest.to_multiset().count(v) by {
                assert(first.to_multiset().count(v) == second.to_multiset().count(v));
                vstd::multiset::lemma_insert_increases_count_by_1(first_rest.to_multiset(), a);
                vstd::multiset::lemma_insert_increases_count_by_1(second_rest.to_multiset(), a);
                vstd::multiset::lemma_insert_other_elements_unchanged(
                    first_rest.to_multiset(),
                    a,
                    v,
                );
                vstd::multiset::lemma_insert_other_elements_unchanged(
                    second_rest.to_multiset(),
                    a,
                    v,
                );
            }
        }
        assert(all_comparable(first_rest)) by {
            assert forall|i: int| 0 <= i < first_rest.len() implies (
            #[trigger] first_rest[i]).profit > 0 by {
                assert(first_rest[i] == first[i + 1]);
            }
        }
        assert(distinct_ids(first_rest)) by {
            assert forall|i: int, j: int| 0 <= i < j < first_rest.len() implies first_rest[i].id
                != first_rest[j].id by {
                assert(first[i + 1].id != first[j + 1].id);
            }
        }
        assert(in_ratio_order(first_rest)) by {
            assert forall|i: int, j: int| 0 <= i < j < first_rest.len() implies !goes_before(
                first_rest[j],
                first_rest[i],
            ) by {
                assert(!goes_before(first[j + 1], first[i + 1]));
            }
        }
        assert(in_ratio_order(second_rest)) by {
            assert forall|i: int, j: int| 0 <= i < j < second_rest.len() implies !goes_before(
                second_rest[j],
                second_rest[i],
            ) by {
                assert(!goes_before(second[j + 1], second[i + 1]));
            }
        }
        lemma_ordered_arrangements_agree(first_rest, second_rest);
    }
}

/// The ratio order of items with distinct ids is the only arrangement of the
/// items in which no later item goes before an earlier one: ratio and id
/// settle the order, whatever order the items came in.
pub proof fn lemma_ratio_order_is_unique(items: Seq<Item>, arranged: Seq<Item>)
    requires
        all_comparable(items),
        distinct_ids(items),
        arranged.to_multiset() == items.to_multiset(),
        in_ratio_order(arranged),
    ensures
        arranged == ratio_sorted(items),
{
    let sorted = ratio_sorted(items);
    lemma_ratio_sorted(items);
    lemma_selection_has_distinct_ids(items, sorted);
    lemma_ordered_arrangements_agree(sorted, arranged);
}

/// Whether `a` goes before `b` in the ratio order.
fn precedes(a: &Item, b: &Item) -> (before: bool)
    requires
        a.profit > 0,
        b.profit > 0,
    ensures
        before == goes_before(*a, *b),
{
    if fraction_less(a.weight, a.profit, b.weight, b.profit) {
        true
    } else if fraction_less(b.weight, b.profit, a.weight, a.profit) {
        false
    } else {
        a.id < b.id
    }
}

/// Whether every item has a positive profit.
pub(crate) fn check_comparable(items: &[Item]) -> (checked: Result<(), KnapsackError>)
    ensures
        checked is Ok <==> all_comparable(items@),
        checked is Err ==> checked == Err::<(), KnapsackError>(KnapsackError::IncomparableItem),
{
    let mut i: usize = 0;
    while i < items.len()
        invariant
            i <= items.len(),
            forall|k: int| 0 <= k < i ==> (#[trigger] items@[k]).profit > 0,
        decreases items.len() - i,
    {
        if items[i].profit == 0 {
            return Err(KnapsackError::IncomparableItem);
        }
        i = i + 1;
    }
    Ok(())
}

/// References to the items, in their order.
pub(crate) fn collect_refs<'a>(items: &'a [Item]) -> (refs: Vec<&'a Item>)
    ensures
        items_of(refs@) == items@,
{
    let mut refs: Vec<&'a Item> = Vec::new();
    let mut i: usize = 0;
    while i < items.len()
        invariant
            i <= items.len(),
            refs.len() == i,
            forall|k: int| 0 <= k < i ==> *(#[trigger] refs@[k]) == items@[k],
        decreases items.len() - i,
    {
        refs.push(&items[i]);
        i = i + 1;
    }
    assert(items_of(refs@) =~= items@);
    refs
}

/// The items in ratio order.
pub(crate) fn sort_by_ratio<'a>(items: &Vec<&'a Item>) -> (sorted: Vec<&'a Item>)
    requires
        all_comparable(items_of(items@)),
    ensures
        items_of(sorted@) == ratio_sorted(items_of(items@)),
{
    let ghost all = items_of(items@);
    let mut sorted: Vec<&'a Item> = Vec::new();
    let mut n: usize = 0;
    assert(items_of(sorted@) =~= ratio_sorted(all.take(0)));
    while n < items.len()
        invariant
            n <= items.len(),
            all == items_of(items@),
            all_comparable(all),
            sorted.len() == n,
            items_of(sorted@) == ratio_sorted(all.take(n as int)),
        decreases items.len() - n,
    {
        let item: &'a Item = items[n];
        let ghost before = items_of(sorted@);
        proof {
            assert(all[n as int] == *item);
            lemma_ratio_sorted(all.take(n as int));
            assert(all_comparable(all.take(n as int))) by {
                assert forall|i: int| 0 <= i < n implies (#[trigger] all.take(n as int)[i]).profit
                    > 0 by {
                    assert(all.take(n as int)[i] == all[i]);
                }
            }
        }
        assert forall|k: int| 0 <= k < sorted.len() implies (#[trigger] sorted@[k]).profit > 0 by {
            assert(before[k] == *sorted@[k]);
        }
        let mut pos: usize = sorted.len();
        while pos > 0 && precedes(item, sorted[pos - 1])
            invariant
                pos <= sorted.len(),
                item.profit > 0,
                before == items_of(sorted@),
                forall|k: int| 0 <= k < sorted.len() ==> (#[trigger] sorted@[k]).profit > 0,
                forall|k: int| pos <= k < before.len() ==> goes_before(*item, #[trigger] before[k]),
            decreases pos,
        {
            pos = pos - 1;
        }
        proof {
            lemma_insert_position(before, *item, pos as int);
            assert(all.take(n + 1).drop_last() =~= all.take(n as int));
            assert(all.take(n + 1).last() == *item);
        }
        sorted.insert(pos, item);
        assert(items_of(sorted@) =~= before.insert(pos as int, *item));
        n = n + 1;
    }
    assert(all.take(n as int) =~= all);
    sorted
}

} // verus!
