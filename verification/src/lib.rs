//! Tick arrays of a concentrated-liquidity pool and the sequences they form:
//! validation of a set of tick arrays, lookup of a single tick, and the search
//! for the nearest initialized tick in either direction.

pub mod constants;
pub mod error;
pub mod types;
pub mod tick;
pub mod model;
pub mod tick_array;
pub mod laws;
pub mod run_laws;

pub use constants::{MAX_TICK_INDEX, MIN_TICK_INDEX, NUM_REWARDS, TICK_ARRAY_SIZE};
pub use error::{
    CoreError, INVALID_TICK_ARRAY_SEQUENCE, INVALID_TICK_INDEX, TICK_ARRAY_NOT_EVENLY_SPACED,
    TICK_INDEX_OUT_OF_BOUNDS, TICK_SEQUENCE_EMPTY,
};
pub use tick::{
    get_initializable_tick_index, get_next_initializable_tick_index,
    get_prev_initializable_tick_index, get_tick_array_start_tick_index,
};
pub use tick_array::{BorrowedTickArraySequence, TickArraySequence};
pub use types::{TickArrayFacade, TickFacade};
