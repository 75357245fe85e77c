use vstd::prelude::*;

verus! {

/// The ways in which building or querying a tick array sequence can fail.
#[derive(Clone, Copy, Debug, PartialEq, Eq)]
pub enum CoreError {
    /// The sequence holds no tick array in its first slot.
    TickSequenceEmpty,
    /// Two neighbouring tick arrays do not start exactly one array width apart.
    TickArrayNotEvenlySpaced,
    /// The tick index lies outside the span that the sequence covers.
    TickIndexOutOfBounds,
    /// The tick index is not a multiple of the tick spacing.
    InvalidTickIndex,
    /// The search for an initialized tick starts outside the sequence.
    InvalidTickArraySequence,
}

pub const TICK_SEQUENCE_EMPTY: CoreError = CoreError::TickSequenceEmpty;

pub const TICK_ARRAY_NOT_EVENLY_SPACED: CoreError = CoreError::TickArrayNotEvenlySpaced;

pub const TICK_INDEX_OUT_OF_BOUNDS: CoreError = CoreError::TickIndexOutOfBounds;

pub const INVALID_TICK_INDEX: CoreError = CoreError::InvalidTickIndex;

pub const INVALID_TICK_ARRAY_SEQUENCE: CoreError = CoreError::InvalidTickArraySequence;

impl CoreError {
    /// The human-readable message of the error.
    pub fn message(&self) -> (r: &'static str)
        ensures
            r@ == error_message(*self),
    {
        match self {
            CoreError::TickSequenceEmpty => "Tick sequence empty",
            CoreError::TickArrayNotEvenlySpaced => "Tick array not evenly spaced",
            CoreError::TickIndexOutOfBounds => "Tick index out of bounds",
            CoreError::InvalidTickIndex => "Invalid tick index",
            CoreError::InvalidTickArraySequence => "Invalid tick array sequence",
        }
    }
}

/// The message that belongs to each error.
pub open spec fn error_message(e: CoreError) -> Seq<char> {
    match e {
        CoreError::TickSequenceEmpty => "Tick sequence empty"@,
        CoreError::TickArrayNotEvenlySpaced => "Tick array not evenly spaced"@,
        CoreError::TickIndexOutOfBounds => "Tick index out of bounds"@,
        CoreError::InvalidTickIndex => "Invalid tick index"@,
        CoreError::InvalidTickArraySequence => "Invalid tick array sequence"@,
    }
}

} // verus!
