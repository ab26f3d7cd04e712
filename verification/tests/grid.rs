use aud2::grid::transpose;

#[test]
fn transpose_flips_rows_and_columns() {
    let rows = vec![vec![1, 2, 3], vec![4, 5, 6]];
    assert_eq!(transpose(rows), vec![vec![1, 4], vec![2, 5], vec![3, 6]]);
}

#[test]
fn transpose_twice_gives_the_grid_back() {
    let rows = vec![vec!["id", "1", "2"], vec!["profit", "3", "4"], vec!["weight", "5", "6"]];
    assert_eq!(transpose(transpose(rows.clone())), rows);
}

#[test]
fn transpose_of_nothing_is_nothing() {
    let rows: Vec<Vec<u8>> = Vec::new();
    assert!(transpose(rows).is_empty());
    let rows: Vec<Vec<u8>> = vec![Vec::new(), Vec::new()];
    assert!(transpose(rows).is_empty());
}

#[test]
fn transpose_leaves_out_what_is_beyond_the_first_row() {
    let rows = vec![vec![1, 2], vec![3, 4, 5]];
    assert_eq!(transpose(rows), vec![vec![1, 3], vec![2, 4]]);
}
