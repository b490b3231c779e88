//! Random partition of a list of identifiers into `k` groups of balanced size.
//!
//! Two algorithms are offered. `rand_group` scans the input once and places each
//! element in a randomly drawn group, probing forward past groups that are full.
//! `rand_group_select` draws the remaining elements one by one, removing each drawn
//! element from the pool, and deals the draws round-robin to the groups.
//!
//! Both come with a deterministic counterpart that takes the random draws as an
//! argument (`group_by_draws`, `select_by_draws`), whose result is stated exactly.
//!
//! `k == 0` means no partitioning: the result is one group holding the input as
//! it is. This is decided before the input is looked at, so an empty input with
//! `k == 0` gives one empty group, while an empty input with `k > 0` gives `k`
//! empty groups.
mod draw;
pub mod groups;
pub mod select;
pub mod spread;

pub use select::{rand_group_select, select_by_draws};
pub use spread::{group_by_draws, rand_group};
