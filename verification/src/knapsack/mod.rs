//! Solving of various knapsack problems: given items, each with a weight and
//! a profit, choose what to pack so that the total weight stays within a
//! limit and the total profit is as large as possible.
//!
//! * [`item`] and [`selection`] hold the item model and what a selection of
//!   items weighs and earns; [`order`] and [`compare`] the ratio order in
//!   which the greedy solvers consider the items.
//! * [`fractional`], [`dynamic`], [`integer`], [`greedy_k`] and
//!   [`branch_bound`] hold one solver each.
//! * [`bound`] proves that the fractional relaxation bounds every selection
//!   of whole items, and [`laws`] states how the solvers relate.

pub mod bound;
pub mod branch_bound;
pub mod compare;
pub mod dynamic;
pub mod fractional;
pub mod greedy_k;
pub mod integer;
pub mod item;
pub mod laws;
pub mod order;
pub mod selection;

pub use self::branch_bound::branch_and_bound;
pub use self::dynamic::{dynamic_programming, dynamic_programming_profit};
pub use self::fractional::{fractional_greedy, PartialPackedItem};
pub use self::greedy_k::greedy_k;
pub use self::integer::integer_greedy;
pub use self::item::{knapsack_profit, Item, KnapsackError};
pub use crate::ratio::fraction_to_u64;
