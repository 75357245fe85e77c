# orca_whirlpools_core (tick arrays)

Tick arrays of a concentrated-liquidity pool, and the sequences built from
them, written in Verus with every function proved against its contract.

Layout of `src/`:

- `constants.rs`, `error.rs`, `types.rs`: tick array size and tick bounds, the
  error enum (with the message of each error), ticks and tick arrays.
- `tick.rs`: rounding tick indexes to initializable ticks and to the start of
  the tick array that holds them.
- `model.rs`: the specification — where a sequence starts and ends, what a
  lookup finds, what the two searches for an initialized tick return, when a
  set of arrays is accepted, and what sorting them stably by start means.
- `tick_array.rs`: `TickArraySequence` (owning its arrays) and
  `BorrowedTickArraySequence` (borrowing them), with `new`, `start_index`,
  `end_index`, `tick`, `next_initialized_tick` and `prev_initialized_tick`.
- `laws.rs`: properties that span operations, such as that building a
  sequence does not depend on the order of the arrays, that an accepted
  sequence stays within the tick range, that a lookup in an accepted sequence
  finds the array that spans the index, that owned and borrowed sequences
  answer alike, that the searches
  have one outcome, and that a tick found by one search is found again by the
  other.

The tests under `tests/` run the compiled library.
