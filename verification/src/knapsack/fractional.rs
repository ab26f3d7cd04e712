//! The fractional greedy solver for the continuous knapsack problem.

use vstd::arithmetic::div_mod::{
    lemma_div_basics, lemma_div_is_ordered, lemma_div_multiples_vanish,
    lemma_div_multiples_vanish_quotient, lemma_fundamental_div_mod, lemma_hoist_over_denominator,
};
use vstd::prelude::*;
use crate::knapsack::item::{Item, KnapsackError};
use crate::knapsack::order::{
    all_comparable, check_comparable, collect_refs, ratio_sorted, sort_by_ratio,
};
use crate::knapsack::selection::items_of;
use crate::ratio::{
    gcd, lemma_gcd_divides, lemma_reduced_floor, lemma_reduced_is_coprime, lemma_reduced_same,
    Ratio, Rational,
};

verus! {

/// An [`Item`] that was put inside a knapsack, with the portion of it that
/// was put there.
#[derive(PartialEq, Clone, Debug)]
pub struct PartialPackedItem<'a> {
    /// The item that was packed.
    pub item: &'a Item,
    /// How much of the item was put into the knapsack: above 0, at most 1.
    pub take_portion: Ratio,
}

impl<'a> PartialPackedItem<'a> {
    /// Whether the portion taken lies above 0 and is at most 1, in lowest
    /// terms.
    pub open spec fn is_portion(self) -> bool {
        0 < self.take_portion.numer <= self.take_portion.denom && self.take_portion.is_reduced()
    }

    /// Calculates the weight that the packed portion of the item has.
    pub fn effective_weight(&self) -> (weight: Ratio)
        requires
            self.take_portion.wf(),
            self.item.weight * self.take_portion.numer <= u128::MAX,
        ensures
            weight == Ratio::reduced(
                (self.item.weight * self.take_portion.numer) as nat,
                self.take_portion.denom as nat,
            ),
            weight.is_reduced(),
            weight@.same(self.take_portion@.times(self.item.weight as int)),
    {
        let whole: u128 = self.item.weight as u128;
        match Ratio::new(whole * self.take_portion.numer, self.take_portion.denom) {
            Some(weight) => weight,
            None => self.take_portion,
        }
    }

    /// Calculates the profit that the packed portion of the item gives.
    pub fn effective_profit(&self) -> (profit: Ratio)
        requires
            self.take_portion.wf(),
            self.item.profit * self.take_portion.numer <= u128::MAX,
        ensures
            profit == Ratio::reduced(
                (self.item.profit * self.take_portion.numer) as nat,
                self.take_portion.denom as nat,
            ),
            profit.is_reduced(),
            profit@.same(self.take_portion@.times(self.item.profit as int)),
    {
        let whole: u128 = self.item.profit as u128;
        match Ratio::new(whole * self.take_portion.numer, self.take_portion.denom) {
            Some(profit) => profit,
            None => self.take_portion,
        }
    }
}

/// The items and portions that a sequence of packed items holds.
pub open spec fn portions_of<'a>(packed: Seq<PartialPackedItem<'a>>) -> Seq<(Item, Ratio)> {
    packed.map_values(|p: PartialPackedItem<'a>| (*p.item, p.take_portion))
}

/// The portion 1: the whole item.
pub open spec fn whole() -> Ratio {
    Ratio { numer: 1, denom: 1 }
}

/// What one walk over `sorted` packs into `capacity` when items may be cut:
/// whole items while they fit, then of the first item that does not fit the
/// portion that fills the capacity exactly. The walk ends there, or when
/// nothing is left of the capacity or of the items.
pub open spec fn fractional_pack(sorted: Seq<Item>, capacity: nat) -> Seq<(Item, Ratio)>
    decreases sorted.len(),
{
    if sorted.len() == 0 || capacity == 0 {
        Seq::empty()
    } else if sorted[0].weight <= capacity {
        seq![(sorted[0], whole())] + fractional_pack(
            sorted.drop_first(),
            (capacity - sorted[0].weight) as nat,
        )
    } else {
        seq![(sorted[0], Ratio::reduced(capacity, sorted[0].weight as nat))]
    }
}

/// The weight of a packed portion.
pub open spec fn effective_weight_of(packed: (Item, Ratio)) -> Rational {
    packed.1@.times(packed.0.weight as int)
}

/// The profit of a packed portion.
pub open spec fn effective_profit_of(packed: (Item, Ratio)) -> Rational {
    packed.1@.times(packed.0.profit as int)
}

/// The summed weight of the packed portions.
pub open spec fn total_effective_weight(packed: Seq<(Item, Ratio)>) -> Rational
    decreases packed.len(),
{
    if packed.len() == 0 {
        Rational::from_int(0)
    } else {
        effective_weight_of(packed[0]).plus(total_effective_weight(packed.drop_first()))
    }
}

/// The summed profit of the packed portions.
pub open spec fn total_effective_profit(packed: Seq<(Item, Ratio)>) -> Rational
    decreases packed.len(),
{
    if packed.len() == 0 {
        Rational::from_int(0)
    } else {
        effective_profit_of(packed[0]).plus(total_effective_profit(packed.drop_first()))
    }
}

/// The summed profit of the packed portions, each rounded down to an integer.
pub open spec fn floored_profit(packed: Seq<(Item, Ratio)>) -> nat
    decreases packed.len(),
{
    if packed.len() == 0 {
        0
    } else {
        floored_profit(packed.drop_last()) + effective_profit_of(packed.last()).floor() as nat
    }
}

/// The profit of the fractional pack of `sorted` into `capacity`, rounded
/// down to an integer: no selection of whole items can earn a broken profit.
pub open spec fn relaxation_bound(sorted: Seq<Item>, capacity: nat) -> nat
    decreases sorted.len(),
{
    if sorted.len() == 0 || capacity == 0 {
        0
    } else if sorted[0].weight <= capacity {
        sorted[0].profit as nat + relaxation_bound(
            sorted.drop_first(),
            (capacity - sorted[0].weight) as nat,
        )
    } else {
        (sorted[0].profit * capacity / sorted[0].weight as int) as nat
    }
}

/// The profit of a portion of at most 1, brought to lowest terms, rounds
/// down to what the profit of the portion rounds down to, and that is no
/// more than the profit of the item.
pub proof fn lemma_portion_profit(item: Item, portion: Ratio)
    requires
        0 < portion.numer <= portion.denom,
        portion.numer <= u64::MAX,
    ensures
        item.profit * portion.numer <= u128::MAX,
        ({
            let profit = Ratio::reduced(
                (item.profit * portion.numer) as nat,
                portion.denom as nat,
            );
            &&& profit.wf()
            &&& profit@.floor() == effective_profit_of((item, portion)).floor()
            &&& 0 <= profit@.floor() <= item.profit
        }),
{
    let whole = (item.profit * portion.numer) as nat;
    let denom = portion.denom as nat;
    assert(whole <= u128::MAX) by (nonlinear_arith)
        requires
            whole == item.profit * portion.numer,
            0 <= item.profit <= u64::MAX,
            0 <= portion.numer <= u64::MAX,
    ;
    lemma_reduced_floor(whole, denom);
    lemma_reduced_same(whole, denom);
    assert(whole <= denom * item.profit) by (nonlinear_arith)
        requires
            whole == item.profit * portion.numer,
            portion.numer <= denom,
    ;
    lemma_div_is_ordered(whole as int, denom * item.profit, denom as int);
    lemma_div_multiples_vanish(item.profit as int, denom as int);
    lemma_div_is_ordered(0, whole as int, denom as int);
    lemma_div_basics(denom as int);
}

/// Putting one portion in front raises the floored profit by that portion's
/// floored profit.
pub proof fn lemma_floored_profit_prepend(first: (Item, Ratio), rest: Seq<(Item, Ratio)>)
    ensures
        floored_profit(seq![first] + rest) == effective_profit_of(first).floor() as nat
            + floored_profit(rest),
    decreases rest.len(),
{
    let whole = seq![first] + rest;
    if rest.len() == 0 {
        assert(whole.drop_last() =~= Seq::<(Item, Ratio)>::empty());
        assert(whole.last() == first);
        assert(floored_profit(whole.drop_last()) == 0);
    } else {
        assert(whole.drop_last() =~= seq![first] + rest.drop_last());
        assert(whole.last() == rest.last());
        lemma_floored_profit_prepend(first, rest.drop_last());
    }
}

/// Every portion of a fractional pack lies above 0 and is at most 1, and the
/// floored profit of the pack is the relaxation bound.
pub proof fn lemma_fractional_pack(sorted: Seq<Item>, capacity: nat)
    requires
        capacity <= u64::MAX,
    ensures
        forall|k: int|
            0 <= k < fractional_pack(sorted, capacity).len() ==> {
                let portion = (#[trigger] fractional_pack(sorted, capacity)[k]).1;
                0 < portion.numer <= portion.denom && portion.numer <= u64::MAX
                    && portion.is_reduced()
            },
        floored_profit(fractional_pack(sorted, capacity)) == relaxation_bound(sorted, capacity),
        fractional_pack(sorted, capacity).len() <= sorted.len(),
    decreases sorted.len(),
{
    let packed = fractional_pack(sorted, capacity);
    if sorted.len() == 0 || capacity == 0 {
        // Nothing is packed.
    } else {
        let first = sorted[0];
        if first.weight <= capacity {
            let inner = fractional_pack(sorted.drop_first(), (capacity - first.weight) as nat);
            lemma_fractional_pack(sorted.drop_first(), (capacity - first.weight) as nat);
            lemma_floored_profit_prepend((first, whole()), inner);
            assert(effective_profit_of((first, whole())).floor() == first.profit) by {
                let profit = effective_profit_of((first, whole()));
                assert(profit.den == 1);
                assert(profit.num == first.profit * 1);
                lemma_div_basics(first.profit as int);
            }
            assert(gcd(1, 1) == 1) by {
                assert(gcd(1, 1nat % 1nat) == 1);
            }
            assert forall|k: int| 0 <= k < packed.len() implies {
                let portion = (#[trigger] packed[k]).1;
                0 < portion.numer <= portion.denom && portion.numer <= u64::MAX
                    && portion.is_reduced()
            } by {
                if k > 0 {
                    assert(packed[k] == inner[k - 1]);
                }
            }
        } else {
            let weight = first.weight as nat;
            let g = gcd(capacity, weight);
            lemma_gcd_divides(capacity, weight);
            lemma_reduced_same(capacity, weight);
            lemma_reduced_is_coprime(capacity, weight);
            lemma_reduced_floor(first.profit as nat * (capacity / g), weight / g);
            let n = capacity / g;
            let d = weight / g;
            assert(n > 0 && n <= d) by (nonlinear_arith)
                requires
                    capacity == n * g,
                    weight == d * g,
                    0 < capacity < weight,
                    g > 0,
            ;
            let portion = Ratio::reduced(capacity, weight);
            assert(portion.numer == n && portion.denom == d);
            lemma_floored_profit_prepend((first, portion), Seq::empty());
            assert(packed =~= seq![(first, portion)] + Seq::<(Item, Ratio)>::empty());
            assert(floored_profit(Seq::<(Item, Ratio)>::empty()) == 0);
            lemma_div_multiples_vanish_quotient(g as int, first.profit * n, d as int);
            assert(g * (first.profit * n) == first.profit * capacity && g * d == weight)
                by (nonlinear_arith)
                requires
                    capacity == n * g,
                    weight == d * g,
            ;
        }
    }
}

/// The packed portions weigh no more than the capacity, and their profit,
/// rounded down, is the relaxation bound.
pub proof fn lemma_fractional_pack_totals(sorted: Seq<Item>, capacity: nat)
    requires
        capacity <= u64::MAX,
    ensures
        total_effective_weight(fractional_pack(sorted, capacity)).den > 0,
        total_effective_weight(fractional_pack(sorted, capacity)).le(Rational::from_int(
            capacity as int,
        )),
        total_effective_profit(fractional_pack(sorted, capacity)).den > 0,
        total_effective_profit(fractional_pack(sorted, capacity)).num >= 0,
        total_effective_profit(fractional_pack(sorted, capacity)).floor() == relaxation_bound(
            sorted,
            capacity,
        ),
        Rational::from_int(relaxation_bound(sorted, capacity) as int).le(
            total_effective_profit(fractional_pack(sorted, capacity)),
        ),
    decreases sorted.len(),
{
    let packed = fractional_pack(sorted, capacity);
    let weight = total_effective_weight(packed);
    let profit = total_effective_profit(packed);
    if sorted.len() == 0 || capacity == 0 {
        lemma_div_basics(0);
    } else {
        let first = sorted[0];
        if first.weight <= capacity {
            let room = (capacity - first.weight) as nat;
            let inner = fractional_pack(sorted.drop_first(), room);
            lemma_fractional_pack_totals(sorted.drop_first(), room);
            assert(packed[0] == (first, whole()));
            assert(packed.drop_first() =~= inner);
            let inner_weight = total_effective_weight(inner);
            let inner_profit = total_effective_profit(inner);
            let (w, p) = (first.weight as int, first.profit as int);
            assert(weight.den == inner_weight.den && weight.num == w * inner_weight.den
                + inner_weight.num) by (nonlinear_arith)
                requires
                    weight.den == 1 * inner_weight.den,
                    weight.num == (w * 1) * inner_weight.den + inner_weight.num * 1,
            ;
            assert(weight.num * 1 <= capacity * weight.den) by (nonlinear_arith)
                requires
                    weight.den == inner_weight.den,
                    weight.num == w * inner_weight.den + inner_weight.num,
                    inner_weight.num * 1 <= (capacity - w) * inner_weight.den,
            ;
            assert(profit.den == inner_profit.den && profit.num == inner_profit.num + p
                * inner_profit.den) by (nonlinear_arith)
                requires
                    profit.den == 1 * inner_profit.den,
                    profit.num == (p * 1) * inner_profit.den + inner_profit.num * 1,
            ;
            lemma_hoist_over_denominator(inner_profit.num, p, inner_profit.den as nat);
            assert(profit.num >= 0) by (nonlinear_arith)
                requires
                    profit.num == inner_profit.num + p * inner_profit.den,
                    inner_profit.num >= 0,
                    p >= 0,
                    inner_profit.den > 0,
            ;
        } else {
            let whole_weight = first.weight as nat;
            let g = gcd(capacity, whole_weight);
            lemma_gcd_divides(capacity, whole_weight);
            lemma_reduced_same(capacity, whole_weight);
            let n = capacity / g;
            let d = whole_weight / g;
            let portion = Ratio::reduced(capacity, whole_weight);
            assert(portion.numer == n && portion.denom == d);
            assert(packed[0] == (first, portion));
            let nothing = Seq::<(Item, Ratio)>::empty();
            assert(packed.drop_first() =~= nothing);
            assert(total_effective_weight(nothing) == Rational::from_int(0));
            assert(total_effective_profit(nothing) == Rational::from_int(0));
            let (w, p) = (first.weight as int, first.profit as int);
            assert(weight.den == d && weight.num == capacity * d) by (nonlinear_arith)
                requires
                    weight.den == d * 1,
                    weight.num == (w * n) * 1 + 0 * d,
                    capacity == n * g,
                    w == d * g,
            ;
            assert(weight.num * 1 <= capacity * weight.den);
            assert(profit.den == d && profit.num == p * n) by (nonlinear_arith)
                requires
                    profit.den == d * 1,
                    profit.num == (p * n) * 1 + 0 * d,
            ;
            assert(profit.num >= 0) by (nonlinear_arith)
                requires
                    profit.num == p * n,
                    p >= 0,
                    n >= 0,
            ;
            lemma_div_multiples_vanish_quotient(g as int, p * n, d as int);
            assert(g * (p * n) == p * capacity && g * d == w) by (nonlinear_arith)
                requires
                    capacity == n * g,
                    w == d * g,
            ;
        }
    }
    lemma_fundamental_div_mod(profit.num, profit.den);
    assert(relaxation_bound(sorted, capacity) * profit.den <= profit.num * 1)
        by (nonlinear_arith)
        requires
            profit.num == profit.den * (profit.num / profit.den) + profit.num % profit.den,
            profit.num % profit.den >= 0,
            relaxation_bound(sorted, capacity) == profit.num / profit.den,
    ;
}

/// Walks over `sorted` from position `start` on and packs what fits, cutting
/// the first item that does not.
pub(crate) fn pack_fractionally<'a>(sorted: &Vec<&'a Item>, start: usize, capacity: u64) -> (packed:
    Vec<PartialPackedItem<'a>>)
    requires
        start <= sorted.len(),
    ensures
        portions_of(packed@) == fractional_pack(
            items_of(sorted@).skip(start as int),
            capacity as nat,
        ),
{
    let ghost all = items_of(sorted@);
    let mut packed: Vec<PartialPackedItem<'a>> = Vec::new();
    let mut available: u64 = capacity;
    let mut i: usize = start;
    assert(portions_of(packed@) + fractional_pack(all.skip(i as int), available as nat)
        =~= fractional_pack(all.skip(start as int), capacity as nat));
    while i < sorted.len() && available > 0
        invariant
            start <= i <= sorted.len(),
            all == items_of(sorted@),
            portions_of(packed@) + fractional_pack(all.skip(i as int), available as nat)
                == fractional_pack(all.skip(start as int), capacity as nat),
        decreases sorted.len() - i,
    {
        let item: &'a Item = sorted[i];
        let ghost taken = portions_of(packed@);
        proof {
            assert(all.skip(i as int)[0] == *item);
            assert(all.skip(i as int).drop_first() =~= all.skip(i + 1));
        }
        if item.weight <= available {
            packed.push(PartialPackedItem { item, take_portion: Ratio::from_integer(1) });
            available = available - item.weight;
            proof {
                let rest = fractional_pack(all.skip(i + 1), available as nat);
                assert(portions_of(packed@) =~= taken.push((*item, whole())));
                assert(taken.push((*item, whole())) + rest =~= taken + (seq![(*item, whole())]
                    + rest));
            }
        } else {
            // Only a part of the item fits; it uses up the capacity.
            let take_portion = match Ratio::new(available as u128, item.weight as u128) {
                Some(portion) => portion,
                None => Ratio::from_integer(1),
            };
            packed.push(PartialPackedItem { item, take_portion });
            proof {
                assert(portions_of(packed@) =~= taken.push((*item, take_portion)));
                assert(taken.push((*item, take_portion)) =~= taken + seq![(*item, take_portion)]);
                assert(fractional_pack(all.skip(i + 1), 0) =~= Seq::<(Item, Ratio)>::empty());
                assert(portions_of(packed@) + Seq::<(Item, Ratio)>::empty() =~= portions_of(
                    packed@,
                ));
            }
            available = 0;
        }
        i = i + 1;
    }
    proof {
        assert(fractional_pack(all.skip(i as int), available as nat) =~= Seq::<
            (Item, Ratio),
        >::empty());
        assert(portions_of(packed@) + Seq::<(Item, Ratio)>::empty() =~= portions_of(packed@));
    }
    packed
}

/// Solves the fractional knapsack problem with the fractional greedy
/// algorithm: the items are walked in ratio order and taken whole while they
/// fit; the first item that does not fit is cut so that it fills the
/// knapsack. Items that are not in the result were left out entirely.
///
/// Where there is capacity, or every item has weight, no portions of the
/// items within the limit earn more than the packed ones (see
/// `lemma_fractional_greedy_is_optimal`). An item of profit zero has no
/// ratio; with such an item among them the items are turned down.
pub fn fractional_greedy<'a>(items: &'a [Item], weight_limit: u64) -> (result: Result<
    Vec<PartialPackedItem<'a>>,
    KnapsackError,
>)
    ensures
        match result {
            Ok(packed) => {
                &&& all_comparable(items@)
                &&& portions_of(packed@) == fractional_pack(
                    ratio_sorted(items@),
                    weight_limit as nat,
                )
                &&& forall|k: int| 0 <= k < packed.len() ==> (#[trigger] packed[k]).is_portion()
                &&& total_effective_weight(portions_of(packed@)).le(
                    Rational::from_int(weight_limit as int),
                )
            },
            Err(error) => error == KnapsackError::IncomparableItem && !all_comparable(items@),
        },
{
    match check_comparable(items) {
        Err(error) => Err(error),
        Ok(_) => {
            let sorted = sort_by_ratio(&collect_refs(items));
            let packed = pack_fractionally(&sorted, 0, weight_limit);
            proof {
                assert(items_of(sorted@).skip(0) =~= items_of(sorted@));
                lemma_fractional_pack(ratio_sorted(items@), weight_limit as nat);
                lemma_fractional_pack_totals(ratio_sorted(items@), weight_limit as nat);
                assert forall|k: int| 0 <= k < packed.len() implies (
                #[trigger] packed[k]).is_portion() by {
                    assert(portions_of(packed@)[k].1 == packed[k].take_portion);
                }
            }
            Ok(packed)
        },
    }
}

} // verus!
