use aud2::knapsack::{
    branch_and_bound, dynamic_programming, dynamic_programming_profit, fractional_greedy,
    greedy_k, integer_greedy, knapsack_profit, Item, KnapsackError, PartialPackedItem,
};
use aud2::knapsack::fraction_to_u64;
use aud2::ratio::Ratio;

fn item(id: usize, profit: u64, weight: u64) -> Item {
    Item { id, profit, weight }
}

/// The sixteen items that several tests share.
fn sixteen_items() -> [Item; 16] {
    [
        item(1, 3, 20),
        item(2, 3, 32),
        item(3, 10, 40),
        item(4, 5, 8),
        item(5, 2, 16),
        item(6, 4, 4),
        item(7, 2, 32),
        item(8, 9, 40),
        item(9, 2, 8),
        item(10, 5, 32),
        item(11, 3, 28),
        item(12, 9, 20),
        item(13, 10, 16),
        item(14, 3, 20),
        item(15, 10, 40),
        item(16, 4, 24),
    ]
}

/// The seven items of the dynamic programming example.
fn seven_items() -> [Item; 7] {
    [
        item(0, 6, 2),
        item(1, 5, 3),
        item(2, 8, 6),
        item(3, 9, 7),
        item(4, 6, 5),
        item(5, 7, 9),
        item(6, 3, 4),
    ]
}

/// The five items of the second branch and bound example.
fn five_items() -> [Item; 5] {
    [item(0, 14, 11), item(1, 6, 5), item(2, 13, 13), item(3, 16, 18), item(4, 9, 7)]
}

fn whole() -> Ratio {
    Ratio::new(1, 1).unwrap()
}

fn weight_of(knapsack: &[&Item]) -> u64 {
    knapsack.iter().map(|item| item.weight).sum()
}

fn ids_of(knapsack: &[&Item]) -> Vec<usize> {
    knapsack.iter().map(|item| item.id).collect()
}

#[test]
fn test_fractional_greedy() {
    let items = sixteen_items();
    let weight_capacity = 120;
    let actual_chosen_items = fractional_greedy(&items, weight_capacity).unwrap();
    let expected_chosen_items = vec![
        PartialPackedItem { item: &items[5], take_portion: whole() },
        PartialPackedItem { item: &items[3], take_portion: whole() },
        PartialPackedItem { item: &items[12], take_portion: whole() },
        PartialPackedItem { item: &items[11], take_portion: whole() },
        PartialPackedItem { item: &items[2], take_portion: whole() },
        PartialPackedItem { item: &items[8], take_portion: whole() },
        PartialPackedItem { item: &items[14], take_portion: Ratio::new(6, 10).unwrap() },
    ];
    assert_eq!(actual_chosen_items, expected_chosen_items);
}

#[test]
fn test_dynamic_programming() {
    let max_knapsack_items = seven_items();
    let weight_limit = 9;
    let actual_knapsack = dynamic_programming(&max_knapsack_items, weight_limit);
    assert!(
        actual_knapsack.iter().map(|item| item.weight).sum::<u64>() <= weight_limit,
        "Knapsack solution too heavy"
    );
    let expected_knapsack = [&max_knapsack_items[0], &max_knapsack_items[3]];
    assert_eq!(actual_knapsack, expected_knapsack, "Algorithm chose the wrong items");
}

#[test]
fn test_greedy_k() {
    let items = [item(0, 13, 13), item(1, 11, 11), item(2, 10, 10), item(3, 8, 8)];
    let weight_limit = 30;
    let k = 2;
    let actual_knapsack = greedy_k(&items, weight_limit, k).unwrap();
    assert!(
        actual_knapsack.iter().map(|item| item.weight).sum::<u64>() <= weight_limit,
        "Knapsack solution too heavy"
    );
    let expected_knapsack = [&items[1], &items[2], &items[3]];
    assert_eq!(actual_knapsack, expected_knapsack);
}

#[test]
fn test_integer_greedy() {
    let items = sixteen_items();
    let weight_capacity = 120;
    let actual_knapsack = integer_greedy(&items, weight_capacity).unwrap();
    let expected_ids = [6, 4, 13, 12, 3, 9, 16];
    assert_eq!(actual_knapsack.iter().map(|item| item.id).collect::<Vec<_>>(), expected_ids);
}

#[test]
fn test_branch_and_bound_1() {
    let items = seven_items();
    let actual_knapsack = branch_and_bound(&items, 9).unwrap();
    let expected_knapsack = [&items[3], &items[0]];
    assert_eq!(actual_knapsack, expected_knapsack);
}

#[test]
fn test_branch_and_bound_2() {
    let items = five_items();
    let actual_knapsack = branch_and_bound(&items, 33).unwrap();
    let expected_knapsack = [&items[2], &items[4], &items[0]];
    assert_eq!(actual_knapsack, expected_knapsack);
}

#[test]
fn fractional_greedy_fills_the_knapsack_exactly() {
    let items = sixteen_items();
    let packed = fractional_greedy(&items, 120).unwrap();
    // Six items are taken whole and weigh 96; the cut item supplies the other 24.
    let whole_weight: u64 = packed[..6].iter().map(|p| p.item.weight).sum();
    assert_eq!(whole_weight, 96);
    let cut = &packed[6];
    assert_eq!(cut.take_portion, Ratio { numer: 3, denom: 5 });
    assert_eq!(cut.effective_weight(), Ratio { numer: 24, denom: 1 });
    assert_eq!(cut.effective_profit(), Ratio { numer: 6, denom: 1 });
    let total_profit: u64 = packed[..6].iter().map(|p| p.item.profit).sum::<u64>() + 6;
    assert_eq!(total_profit, 46);
}

#[test]
fn effective_weight_and_profit_of_a_portion() {
    let thing = item(1, 7, 9);
    let packed = PartialPackedItem { item: &thing, take_portion: Ratio::new(2, 6).unwrap() };
    assert_eq!(packed.take_portion, Ratio { numer: 1, denom: 3 });
    assert_eq!(packed.effective_weight(), Ratio { numer: 3, denom: 1 });
    assert_eq!(packed.effective_profit(), Ratio { numer: 7, denom: 3 });
    assert_eq!(fraction_to_u64(&packed.effective_profit()), 2);
}

#[test]
fn fractional_greedy_takes_everything_that_fits() {
    let items = [item(1, 4, 2), item(2, 3, 3)];
    let packed = fractional_greedy(&items, 10).unwrap();
    assert_eq!(
        packed,
        vec![
            PartialPackedItem { item: &items[0], take_portion: whole() },
            PartialPackedItem { item: &items[1], take_portion: whole() },
        ]
    );
}

#[test]
fn fractional_greedy_with_no_capacity_takes_nothing() {
    let items = [item(1, 4, 2), item(2, 3, 0)];
    assert_eq!(fractional_greedy(&items, 0).unwrap(), vec![]);
}

#[test]
fn fractional_greedy_takes_weightless_items_whole() {
    let items = [item(1, 4, 5), item(2, 3, 0)];
    let packed = fractional_greedy(&items, 2).unwrap();
    assert_eq!(
        packed,
        vec![
            PartialPackedItem { item: &items[1], take_portion: whole() },
            PartialPackedItem { item: &items[0], take_portion: Ratio::new(2, 5).unwrap() },
        ]
    );
}

#[test]
fn empty_input_gives_empty_results() {
    let items: [Item; 0] = [];
    assert_eq!(fractional_greedy(&items, 10).unwrap(), vec![]);
    assert!(integer_greedy(&items, 10).unwrap().is_empty());
    assert!(dynamic_programming(&items, 10).is_empty());
    assert!(greedy_k(&items, 10, 3).unwrap().is_empty());
    assert!(branch_and_bound(&items, 10).unwrap().is_empty());
}

#[test]
fn zero_profit_items_are_turned_down() {
    let items = [item(1, 4, 2), item(2, 0, 3), item(3, 5, 1)];
    assert_eq!(fractional_greedy(&items, 10), Err(KnapsackError::IncomparableItem));
    assert_eq!(integer_greedy(&items, 10), Err(KnapsackError::IncomparableItem));
    assert_eq!(greedy_k(&items, 10, 1), Err(KnapsackError::IncomparableItem));
    assert_eq!(branch_and_bound(&items, 10), Err(KnapsackError::IncomparableItem));
    // Dynamic programming never compares ratios and takes such items as they are.
    assert_eq!(ids_of(&dynamic_programming(&items, 3)), vec![1, 3]);
}

#[test]
fn integer_greedy_passes_over_what_does_not_fit() {
    // In ratio order: id 1 (1/2), id 2 (3/5), id 3 (1). The second does not
    // fit into what the first leaves over, the third does.
    let items = [item(3, 2, 2), item(2, 10, 6), item(1, 10, 5)];
    let knapsack = integer_greedy(&items, 8).unwrap();
    assert_eq!(ids_of(&knapsack), vec![1, 3]);
}

#[test]
fn integer_greedy_stops_when_the_knapsack_is_full() {
    // Without capacity the walk ends at once, before the weightless items.
    let items = [item(1, 1, 0), item(2, 1, 0)];
    assert!(integer_greedy(&items, 0).unwrap().is_empty());
    assert_eq!(ids_of(&integer_greedy(&items, 1).unwrap()), vec![1, 2]);
}

#[test]
fn equal_ratios_are_ordered_by_id() {
    let items = [item(9, 2, 4), item(3, 1, 2), item(5, 3, 6)];
    let knapsack = integer_greedy(&items, 100).unwrap();
    assert_eq!(ids_of(&knapsack), vec![3, 5, 9]);
}

#[test]
fn ratios_are_compared_exactly() {
    // The ratios are 1 + 1/3000000000000000000, 1 + 1/2000000000000000000
    // and 1. Floating point sees all three as 1.
    let items = [
        item(1, 3_000_000_000_000_000_000, 3_000_000_000_000_000_001),
        item(2, 2_000_000_000_000_000_000, 2_000_000_000_000_000_001),
        item(3, 1, 1),
    ];
    let knapsack = integer_greedy(&items, u64::MAX).unwrap();
    assert_eq!(ids_of(&knapsack), vec![3, 1, 2]);
}

#[test]
fn dynamic_programming_is_optimal_on_the_example() {
    let items = seven_items();
    let knapsack = dynamic_programming(&items, 9);
    assert_eq!(knapsack_profit(&knapsack), 15);
    assert_eq!(weight_of(&knapsack), 9);
}

#[test]
fn dynamic_programming_keeps_the_earlier_selection_on_ties() {
    let items = [item(1, 5, 3), item(2, 5, 3)];
    assert_eq!(ids_of(&dynamic_programming(&items, 3)), vec![1]);
    assert_eq!(ids_of(&dynamic_programming(&items, 6)), vec![1, 2]);
    assert!(dynamic_programming(&items, 2).is_empty());
}

#[test]
fn dynamic_programming_takes_weightless_items_without_capacity() {
    let items = [item(1, 5, 0), item(2, 7, 1)];
    assert_eq!(ids_of(&dynamic_programming(&items, 0)), vec![1]);
}

#[test]
fn branch_and_bound_matches_dynamic_programming() {
    let items = five_items();
    let exact = dynamic_programming(&items, 33);
    let searched = branch_and_bound(&items, 33).unwrap();
    assert_eq!(knapsack_profit(&searched), 36);
    assert_eq!(knapsack_profit(&exact), 36);
    assert_eq!(weight_of(&searched), 31);

    let items = sixteen_items();
    for limit in 0..=130 {
        let exact = dynamic_programming(&items, limit);
        let searched = branch_and_bound(&items, limit).unwrap();
        assert_eq!(knapsack_profit(&searched), knapsack_profit(&exact));
        assert!(weight_of(&searched) <= limit);
    }
}

#[test]
fn every_solver_stays_within_the_capacity() {
    let items = sixteen_items();
    for limit in [0, 1, 7, 33, 120, 400] {
        assert!(weight_of(&integer_greedy(&items, limit).unwrap()) <= limit);
        assert!(weight_of(&dynamic_programming(&items, limit)) <= limit);
        assert!(weight_of(&greedy_k(&items, limit, 2).unwrap()) <= limit);
        assert!(weight_of(&branch_and_bound(&items, limit).unwrap()) <= limit);
        let packed = fractional_greedy(&items, limit).unwrap();
        let mut floor: u64 = 0;
        for portion in &packed {
            floor += fraction_to_u64(&portion.effective_weight());
        }
        assert!(floor <= limit);
    }
}

#[test]
fn the_relaxation_dominates_the_heuristics() {
    let items = sixteen_items();
    for limit in [0, 1, 7, 33, 120, 400] {
        let packed = fractional_greedy(&items, limit).unwrap();
        let mut relaxed: u64 = 0;
        for portion in &packed {
            relaxed += fraction_to_u64(&portion.effective_profit());
        }
        let greedy = knapsack_profit(&integer_greedy(&items, limit).unwrap());
        let exact = knapsack_profit(&dynamic_programming(&items, limit));
        let fixed = knapsack_profit(&greedy_k(&items, limit, 2).unwrap());
        assert!(greedy <= relaxed);
        assert!(greedy <= exact);
        assert!(fixed <= exact);
        assert!(exact <= relaxed);
    }
}

#[test]
fn solvers_give_the_same_answer_when_run_again() {
    let items = sixteen_items();
    assert_eq!(fractional_greedy(&items, 120), fractional_greedy(&items, 120));
    assert_eq!(integer_greedy(&items, 120), integer_greedy(&items, 120));
    assert_eq!(dynamic_programming(&items, 120), dynamic_programming(&items, 120));
    assert_eq!(greedy_k(&items, 120, 2), greedy_k(&items, 120, 2));
    assert_eq!(branch_and_bound(&items, 120), branch_and_bound(&items, 120));
}

#[test]
fn greedy_k_with_nothing_fixed_is_integer_greedy() {
    let items = sixteen_items();
    assert_eq!(greedy_k(&items, 120, 0), integer_greedy(&items, 120));
}

#[test]
fn greedy_k_keeps_a_combination_that_fills_the_limit() {
    // Only fixing the last two items, which weigh exactly the limit, earns 20.
    let items = [item(0, 7, 3), item(1, 10, 5), item(2, 10, 5)];
    assert_eq!(ids_of(&greedy_k(&items, 10, 1).unwrap()), vec![0, 2]);
    assert_eq!(ids_of(&greedy_k(&items, 10, 2).unwrap()), vec![1, 2]);
}

#[test]
fn greedy_k_improves_on_integer_greedy() {
    // Greedy takes the item of the best ratio and then nothing else fits.
    let items = [item(0, 11, 10), item(1, 50, 50), item(2, 45, 50)];
    assert_eq!(ids_of(&integer_greedy(&items, 100).unwrap()), vec![0, 1]);
    assert_eq!(ids_of(&greedy_k(&items, 100, 2).unwrap()), vec![1, 2]);
}

#[test]
fn greedy_k_with_more_fixed_items_than_items() {
    let items = [item(0, 3, 2), item(1, 4, 3)];
    assert_eq!(ids_of(&greedy_k(&items, 5, 7).unwrap()), vec![0, 1]);
}

#[test]
fn knapsack_profit_adds_the_profits() {
    let items = seven_items();
    let chosen = [&items[0], &items[3], &items[6]];
    assert_eq!(knapsack_profit(&chosen), 18);
    assert_eq!(knapsack_profit(&[]), 0);
}

#[test]
fn fraction_to_u64_drops_the_digits_after_the_dot() {
    assert_eq!(fraction_to_u64(&Ratio::new(1, 1).unwrap()), 1);
    assert_eq!(fraction_to_u64(&Ratio::new(42, 10).unwrap()), 4);
    assert_eq!(fraction_to_u64(&Ratio::new(29, 10).unwrap()), 2);
    assert_eq!(fraction_to_u64(&Ratio::new(0, 7).unwrap()), 0);
    assert_eq!(fraction_to_u64(&Ratio::new(999, 1000).unwrap()), 0);
    assert_eq!(fraction_to_u64(&Ratio::new(u64::MAX as u128 * 3 + 2, 3).unwrap()), u64::MAX);
    assert_eq!(fraction_to_u64(&Ratio { numer: 250, denom: 3 }), 83);
}

#[test]
fn ratios_are_kept_in_lowest_terms() {
    assert_eq!(Ratio::new(6, 10), Some(Ratio { numer: 3, denom: 5 }));
    assert_eq!(Ratio::new(24, 40), Ratio::new(6, 10));
    assert_eq!(Ratio::new(0, 9), Some(Ratio { numer: 0, denom: 1 }));
    assert_eq!(Ratio::new(7, 7), Some(Ratio { numer: 1, denom: 1 }));
    assert_eq!(Ratio::new(5, 0), None);
    assert_eq!(Ratio::new(u128::MAX, u128::MAX - 1).map(|r| r.denom), Some(u128::MAX - 1));
    assert_eq!(Ratio::from_integer(4), Ratio { numer: 4, denom: 1 });
}

#[test]
fn weight_profit_ratio_of_an_item() {
    assert_eq!(item(0, 5, 2).weight_profit_ratio(), Ok(Ratio { numer: 2, denom: 5 }));
    assert_eq!(item(0, 4, 8).weight_profit_ratio(), Ok(Ratio { numer: 2, denom: 1 }));
    assert_eq!(item(0, 0, 8).weight_profit_ratio(), Err(KnapsackError::IncomparableItem));
}

#[test]
fn dynamic_programming_profit_is_the_profit_of_the_selection() {
    let items = seven_items();
    assert_eq!(dynamic_programming_profit(&items, 9), 15);
    let items = five_items();
    assert_eq!(dynamic_programming_profit(&items, 33), 36);
    let items = sixteen_items();
    let mut before = 0;
    for limit in 0..=130 {
        let profit = dynamic_programming_profit(&items, limit);
        assert_eq!(profit, knapsack_profit(&dynamic_programming(&items, limit)) as u128);
        // More capacity never earns less.
        assert!(before <= profit);
        before = profit;
    }
    assert_eq!(dynamic_programming_profit(&[], 7), 0);
    // The profits of two items add up beyond what a u64 holds.
    let rich = [item(0, u64::MAX, 1), item(1, u64::MAX, 1)];
    assert_eq!(dynamic_programming_profit(&rich, 2), 2 * (u64::MAX as u128));
}

#[test]
fn items_compare_by_their_ratio() {
    let cheap = item(0, 5, 2);
    let dear = item(1, 2, 5);
    let same = item(2, 10, 4);
    let worthless = item(3, 0, 4);
    assert!(cheap < dear);
    assert!(dear > cheap);
    assert!(cheap <= same && cheap >= same);
    assert!(!(cheap < same) && !(cheap > same));
    assert_eq!(cheap.partial_cmp(&dear), Some(std::cmp::Ordering::Less));
    assert_eq!(cheap.partial_cmp(&same), Some(std::cmp::Ordering::Equal));
    assert_eq!(cheap.partial_cmp(&worthless), None);
    assert_eq!(worthless.partial_cmp(&worthless), None);
    assert!(!(cheap < worthless) && !(cheap > worthless));
}

#[test]
fn the_order_of_the_input_does_not_matter() {
    let items = sixteen_items();
    let mut reversed = sixteen_items();
    reversed.reverse();
    assert_eq!(
        ids_of(&integer_greedy(&items, 120).unwrap()),
        ids_of(&integer_greedy(&reversed, 120).unwrap())
    );
    assert_eq!(
        ids_of(&branch_and_bound(&items, 120).unwrap()),
        ids_of(&branch_and_bound(&reversed, 120).unwrap())
    );
    let packed = fractional_greedy(&items, 120).unwrap();
    let packed_reversed = fractional_greedy(&reversed, 120).unwrap();
    assert_eq!(packed.len(), packed_reversed.len());
    for (one, other) in packed.iter().zip(&packed_reversed) {
        assert_eq!(one.item.id, other.item.id);
        assert_eq!(one.take_portion, other.take_portion);
    }
}

#[test]
fn branch_and_bound_without_capacity_finds_nothing() {
    // Dynamic programming packs the item without weight; the search ends
    // before it looks at any item.
    let items = [item(0, 4, 0), item(1, 5, 3)];
    assert!(branch_and_bound(&items, 0).unwrap().is_empty());
    assert_eq!(ids_of(&dynamic_programming(&items, 0)), vec![0]);
    assert_eq!(ids_of(&branch_and_bound(&items, 1).unwrap()), vec![0]);
}

#[test]
fn branch_and_bound_handles_the_largest_values() {
    let items = [item(0, u64::MAX, u64::MAX), item(1, u64::MAX, u64::MAX - 1), item(2, 1, 1)];
    let knapsack = branch_and_bound(&items, u64::MAX).unwrap();
    assert_eq!(ids_of(&knapsack), vec![1, 2]);
    assert_eq!(dynamic_programming_profit(&items[1..], 1), 1);
    let packed = fractional_greedy(&items, u64::MAX).unwrap();
    assert_eq!(packed.len(), 2);
    assert_eq!(packed[0].item.id, 1);
    assert_eq!(packed[0].take_portion, whole());
    assert_eq!(packed[1].item.id, 0);
    assert_eq!(packed[1].take_portion, Ratio { numer: 1, denom: u64::MAX as u128 });
    assert_eq!(packed[1].effective_weight(), Ratio { numer: 1, denom: 1 });
    assert_eq!(packed[1].effective_profit(), Ratio { numer: 1, denom: 1 });
}
