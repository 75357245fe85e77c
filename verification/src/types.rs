use vstd::prelude::*;

use crate::constants::{NUM_REWARDS, TICK_ARRAY_SIZE};

verus! {

/// The state of one tick of a pool.
#[derive(Clone, Copy, Debug, PartialEq, Eq)]
pub struct TickFacade {
    pub initialized: bool,
    pub liquidity_net: i128,
    pub liquidity_gross: u128,
    pub fee_growth_outside_a: u128,
    pub fee_growth_outside_b: u128,
    pub reward_growths_outside: [u128; NUM_REWARDS],
}

impl Default for TickFacade {
    fn default() -> (r: Self)
        ensures
            !r.initialized,
            r.liquidity_net == 0,
            r.liquidity_gross == 0,
            r.fee_growth_outside_a == 0,
            r.fee_growth_outside_b == 0,
            forall|i: int| 0 <= i < NUM_REWARDS ==> #[trigger] r.reward_growths_outside@[i] == 0,
    {
        TickFacade {
            initialized: false,
            liquidity_net: 0,
            liquidity_gross: 0,
            fee_growth_outside_a: 0,
            fee_growth_outside_b: 0,
            reward_growths_outside: [0, 0, 0],
        }
    }
}

/// A run of `TICK_ARRAY_SIZE` consecutive initializable ticks, the first of
/// which sits at `start_tick_index`.
#[derive(Clone, Copy, Debug, PartialEq, Eq)]
pub struct TickArrayFacade {
    pub start_tick_index: i32,
    pub ticks: [TickFacade; TICK_ARRAY_SIZE],
}

} // verus!
