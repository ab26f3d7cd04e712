use aud2::subset_sum::{
    subset_sum_full_bool_table, subset_sum_row_sum_set, subset_sum_set, subset_sum_vec,
};
use std::collections::HashSet;

/// Numbers that can be used to produce sums.
const NUMBERS: [u64; 9] = [7, 13, 17, 20, 29, 31, 31, 35, 57];

/// All sums that are reachable with [NUMBERS].
const EXPECTED_REACHABLE_SUMS: [u64; 174] = [
    174, 36, 183, 62, 172, 158, 140, 116, 151, 149, 79, 203, 37, 139, 126, 220, 0, 85, 147, 200,
    115, 49, 153, 133, 96, 97, 144, 233, 130, 143, 152, 128, 57, 159, 132, 46, 105, 20, 65, 108,
    74, 138, 89, 179, 163, 185, 118, 101, 44, 52, 77, 123, 184, 191, 202, 170, 135, 17, 48, 88, 71,
    72, 150, 121, 51, 146, 31, 196, 27, 93, 83, 106, 154, 181, 166, 240, 119, 7, 148, 40, 156, 100,
    190, 107, 73, 24, 69, 50, 189, 127, 213, 70, 104, 155, 55, 30, 56, 141, 145, 94, 91, 209, 35,
    175, 182, 160, 165, 211, 84, 178, 167, 42, 180, 110, 134, 187, 112, 216, 13, 53, 95, 142, 81,
    111, 68, 204, 75, 122, 86, 136, 109, 205, 98, 60, 114, 192, 223, 59, 58, 173, 92, 137, 129,
    102, 171, 99, 87, 90, 169, 38, 33, 131, 82, 210, 227, 176, 207, 157, 64, 168, 67, 66, 124, 113,
    161, 188, 29, 198, 125, 103, 117, 80, 194, 61,
];

type SubsetSumAlgorithm = fn(numbers: &[u64], limit: u64) -> bool;

/// Tests a subset algorithm.
fn test_subset_sum(algorithm: SubsetSumAlgorithm) {
    let max_reachable = *EXPECTED_REACHABLE_SUMS.iter().max().unwrap();
    for number in 0..=max_reachable {
        let expected_reachable = EXPECTED_REACHABLE_SUMS.contains(&number);
        let actual_reachable = algorithm(&NUMBERS, number);
        assert_eq!(expected_reachable, actual_reachable);
    }
}

#[test]
fn test_subset_sum_set() {
    test_subset_sum(subset_sum_set);
}

#[test]
fn test_subset_sum_vec() {
    test_subset_sum(subset_sum_vec);
}

#[test]
fn sum_174_is_reachable() {
    assert!(subset_sum_set(&NUMBERS, 174));
    assert!(subset_sum_vec(&NUMBERS, 174));
    // 175 = 57 + 31 + 31 + 29 + 20 + 7
    assert!(subset_sum_set(&NUMBERS, 175));
    assert!(subset_sum_vec(&NUMBERS, 175));
    // All numbers together make 240; 1 cannot be made, so neither can 239.
    for sum in [1, 239, 241] {
        assert!(!subset_sum_set(&NUMBERS, sum));
        assert!(!subset_sum_vec(&NUMBERS, sum));
    }
}

#[test]
fn last_row_of_the_set_table_is_the_reachable_set() {
    let table = subset_sum_row_sum_set(&NUMBERS, None);
    assert_eq!(table.len(), NUMBERS.len() + 1);
    let expected: HashSet<u64> = EXPECTED_REACHABLE_SUMS.iter().copied().collect();
    assert_eq!(expected.len(), 174);
    assert_eq!(table[NUMBERS.len()], expected);
}

#[test]
fn both_formulations_agree_on_every_sum() {
    let total: u64 = NUMBERS.iter().sum();
    assert_eq!(total, 240);
    let sets = subset_sum_row_sum_set(&NUMBERS, None);
    let flags = subset_sum_full_bool_table(&NUMBERS);
    assert_eq!(flags.len(), NUMBERS.len() + 1);
    for (set, row) in sets.iter().zip(&flags) {
        assert_eq!(row.len(), 241);
        for sum in 0..=total {
            assert_eq!(set.contains(&sum), row[sum as usize]);
        }
    }
    for sum in 0..=total {
        assert_eq!(subset_sum_set(&NUMBERS, sum), flags[NUMBERS.len()][sum as usize]);
        assert_eq!(subset_sum_vec(&NUMBERS, sum), flags[NUMBERS.len()][sum as usize]);
    }
}

#[test]
fn rows_tell_which_prefix_first_makes_a_sum() {
    let table = subset_sum_row_sum_set(&[3, 5, 3], None);
    assert_eq!(table[0], HashSet::from([0]));
    assert_eq!(table[1], HashSet::from([0, 3]));
    assert_eq!(table[2], HashSet::from([0, 3, 5, 8]));
    assert_eq!(table[3], HashSet::from([0, 3, 5, 6, 8, 11]));

    let flags = subset_sum_full_bool_table(&[3, 5, 3]);
    let marked = |row: &Vec<bool>| -> Vec<usize> {
        (0..row.len()).filter(|&sum| row[sum]).collect()
    };
    assert_eq!(marked(&flags[0]), vec![0]);
    assert_eq!(marked(&flags[1]), vec![0, 3]);
    assert_eq!(marked(&flags[2]), vec![0, 3, 5, 8]);
    assert_eq!(marked(&flags[3]), vec![0, 3, 5, 6, 8, 11]);
    assert!(flags.iter().all(|row| row.len() == 12));
}

#[test]
fn a_limit_caps_the_rows() {
    let table = subset_sum_row_sum_set(&[3, 5, 3], Some(6));
    assert_eq!(table[0], HashSet::from([0]));
    assert_eq!(table[1], HashSet::from([0, 3]));
    assert_eq!(table[2], HashSet::from([0, 3, 5]));
    assert_eq!(table[3], HashSet::from([0, 3, 5, 6]));
    let table = subset_sum_row_sum_set(&[3, 5], Some(0));
    assert_eq!(table[2], HashSet::from([0]));
}

#[test]
fn no_numbers_reach_only_zero() {
    assert!(subset_sum_set(&[], 0));
    assert!(subset_sum_vec(&[], 0));
    assert!(!subset_sum_set(&[], 5));
    assert!(!subset_sum_vec(&[], 5));
    assert_eq!(subset_sum_row_sum_set(&[], None), vec![HashSet::from([0])]);
    assert_eq!(subset_sum_full_bool_table(&[]), vec![vec![true]]);
}

#[test]
fn each_number_is_used_at_most_once() {
    assert!(!subset_sum_set(&[4], 8));
    assert!(!subset_sum_vec(&[4], 8));
    assert!(subset_sum_set(&[4, 4], 8));
    assert!(subset_sum_vec(&[4, 4], 8));
    assert!(!subset_sum_set(&[4, 4], 12));
    assert!(!subset_sum_vec(&[4, 4], 12));
}

#[test]
fn zero_among_the_numbers_changes_nothing() {
    assert!(subset_sum_set(&[0, 2], 2));
    assert!(subset_sum_vec(&[0, 2], 2));
    assert!(!subset_sum_set(&[0, 2], 1));
    assert!(!subset_sum_vec(&[0, 2], 1));
    assert_eq!(subset_sum_full_bool_table(&[0, 2])[1], vec![true, false, false]);
}

#[test]
fn numbers_above_the_limit_are_passed_over() {
    assert!(subset_sum_set(&[u64::MAX, 7, u64::MAX - 3], 7));
    assert!(subset_sum_vec(&[u64::MAX, 7, u64::MAX - 3], 7));
    assert!(!subset_sum_vec(&[u64::MAX, 7, u64::MAX - 3], 6));
    // Sums that a u64 cannot hold are not kept, and nothing wraps around.
    assert!(subset_sum_set(&[u64::MAX, 7], u64::MAX));
    assert!(!subset_sum_set(&[u64::MAX, 7], 6));
    assert!(subset_sum_set(&[u64::MAX - 7, 7, 1], u64::MAX));
    let table = subset_sum_row_sum_set(&[u64::MAX, 7], None);
    assert_eq!(table[2], HashSet::from([0, 7, u64::MAX]));
}
