use vstd::prelude::*;

verus! {

/// Number of ticks held by one tick array.
pub const TICK_ARRAY_SIZE: usize = 88;

/// Number of reward slots tracked per tick.
pub const NUM_REWARDS: usize = 3;

/// Lowest tick index a pool can use.
pub const MIN_TICK_INDEX: i32 = -443636;

/// Highest tick index a pool can use.
pub const MAX_TICK_INDEX: i32 = 443636;

} // verus!
