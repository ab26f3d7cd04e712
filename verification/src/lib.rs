//! Exact and heuristic solvers for the knapsack family of problems and for
//! subset sum.
//!
//! * [`knapsack`] holds the item model and the solvers for the fractional and
//!   the 0/1 knapsack problem: fractional greedy, dynamic programming, integer
//!   greedy, greedy-k and branch and bound.
//! * [`subset_sum`] holds the two dynamic-programming formulations of subset
//!   sum: rows of reachable sums and rows of booleans.
//! * [`ratio`] holds the exact rational numbers that the knapsack solvers
//!   report, [`combinations`] the combinations of positions that greedy-k
//!   goes through, and [`grid`] the flipping of rows and columns.
//!
//! Every function is a pure computation on the values it is handed. Each
//! solver's contract names the selection it returns, so equal inputs always
//! give equal outputs.

pub mod combinations;
pub mod grid;
pub mod knapsack;
pub mod ratio;
pub mod subset_sum;
