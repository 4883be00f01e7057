//! Ordering analysis for anvil merges: the merge and cost rules for enchanted
//! items, and the brute-force search for the costliest valid merge order.
use vstd::prelude::*;

pub mod arrangements;
pub mod enchantments;
pub mod items;
pub mod pool;
pub mod search;

verus! {

} // verus!
