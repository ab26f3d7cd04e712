//! Flipping a grid of values: rows become columns.

use vstd::prelude::*;

verus! {

/// Whether no row is shorter than the first.
pub open spec fn is_rectangular<T>(rows: Seq<Vec<T>>) -> bool {
    forall|r: int| 0 <= r < rows.len() ==> (#[trigger] rows[r]).len() >= rows[0].len()
}

/// Whether `columns` holds the columns of `rows`: entry `r` of column `c` is
/// entry `c` of row `r`.
pub open spec fn is_transposed<T>(rows: Seq<Vec<T>>, columns: Seq<Vec<T>>) -> bool {
    if rows.len() == 0 {
        columns.len() == 0
    } else {
        &&& columns.len() == rows[0].len()
        &&& forall|c: int| 0 <= c < columns.len() ==> (#[trigger] columns[c]).len() == rows.len()
        &&& forall|c: int, r: int|
            0 <= c < columns.len() && 0 <= r < rows.len() ==> columns[c][r] == rows[r][c]
    }
}

/// Transposes a grid, that is, flips rows and columns. The first row says how
/// many columns there are; no row may be shorter, and what a row holds beyond
/// that is left out.
pub fn transpose<T: Copy>(rows: Vec<Vec<T>>) -> (columns: Vec<Vec<T>>)
    requires
        is_rectangular(rows@),
    ensures
        is_transposed(rows@, columns@),
{
    let mut columns: Vec<Vec<T>> = Vec::new();
    if rows.len() == 0 {
        return columns;
    }
    let width: usize = rows[0].len();
    let mut c: usize = 0;
    while c < width
        invariant
            c <= width,
            rows.len() > 0,
            width == rows[0].len(),
            is_rectangular(rows@),
            columns.len() == c,
            forall|k: int| 0 <= k < c ==> (#[trigger] columns[k]).len() == rows.len(),
            forall|k: int, r: int|
                0 <= k < c && 0 <= r < rows.len() ==> columns[k][r] == rows[r][k],
        decreases width - c,
    {
        let mut column: Vec<T> = Vec::new();
        let mut r: usize = 0;
        while r < rows.len()
            invariant
                r <= rows.len(),
                c < width,
                width == rows[0].len(),
                is_rectangular(rows@),
                column.len() == r,
                forall|k: int| 0 <= k < r ==> #[trigger] column[k] == rows[k][c as int],
            decreases rows.len() - r,
        {
            assert(rows[r as int].len() >= rows[0].len());
            column.push(rows[r][c]);
            r = r + 1;
        }
        columns.push(column);
        c = c + 1;
    }
    columns
}

} // verus!
