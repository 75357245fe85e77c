//! What building, bounding and searching a sequence do on a row that holds an
//! evenly spaced run of tick arrays, stated over the arrays' own start indexes
//! and ticks.
use vstd::prelude::*;

use vstd::arithmetic::div_mod::{lemma_fundamental_div_mod, lemma_fundamental_div_mod_converse};

use crate::constants::{MAX_TICK_INDEX, MIN_TICK_INDEX, TICK_ARRAY_SIZE};
use crate::error::CoreError;
use crate::laws::law_accepted_lookup_finds_spanning_array;
use crate::model::{
    above_candidate, array_start_of, below_candidate, clear_above_until, clear_below_until,
    in_sequence, is_stable_sort, last_array_start, last_start_within, lemma_stable_sorted_is_the_sort,
    lists_position, next_search, ordered_before, prev_search, sequence_end, sequence_start,
    sorts_with, spaced_pair, stable_sorted, tick_lookup, validation,
};
use crate::types::{TickArrayFacade, TickFacade};

verus! {

/// The start index of the array in slot `i`.
pub open spec fn start_in(arrays: Seq<Option<TickArrayFacade>>, i: int) -> int {
    arrays[i]->Some_0.start_tick_index as int
}

/// The tick index of tick `k` of the array in slot `i`.
pub open spec fn index_of_tick(arrays: Seq<Option<TickArrayFacade>>, spacing: int, i: int, k: int) -> int {
    start_in(arrays, i) + k * spacing
}

/// Slot `i` holds an array whose tick `k` exists.
pub open spec fn holds_tick(arrays: Seq<Option<TickArrayFacade>>, i: int, k: int) -> bool {
    0 <= i < arrays.len() && arrays[i] is Some && 0 <= k < TICK_ARRAY_SIZE
}

/// Tick `k` of the array in slot `i`.
pub open spec fn tick_in(arrays: Seq<Option<TickArrayFacade>>, i: int, k: int) -> TickFacade {
    arrays[i]->Some_0.ticks@[k]
}

/// An array in slot `i` is preceded by an array that starts one array width
/// (`TICK_ARRAY_SIZE * spacing`) before it.
pub open spec fn run_link(arrays: Seq<Option<TickArrayFacade>>, spacing: int, i: int) -> bool {
    arrays[i] is Some ==> arrays[i - 1] is Some && start_in(arrays, i) == start_in(arrays, i - 1) + TICK_ARRAY_SIZE * spacing
}

/// The row holds an evenly spaced run of arrays: the first slot holds an array
/// whose start lies on the spacing, each further array starts one array width
/// after an array in the slot before it, no array starts at `i32::MAX`, and
/// only empty slots follow the run.
pub open spec fn is_evenly_spaced_run(arrays: Seq<Option<TickArrayFacade>>, spacing: int) -> bool {
    &&& arrays.len() > 0
    &&& arrays[0] is Some
    &&& start_in(arrays, 0) % spacing == 0
    &&& forall|i: int| 0 <= i < arrays.len() && (#[trigger] arrays[i]) is Some ==> start_in(arrays, i) != i32::MAX
    &&& forall|i: int| 1 <= i < arrays.len() ==> #[trigger] run_link(arrays, spacing, i)
}

/// Every array of a run starts a whole number of widths after the first, and
/// no slot before it is empty.
proof fn lemma_run_starts(arrays: Seq<Option<TickArrayFacade>>, spacing: int, i: int)
    requires
        is_evenly_spaced_run(arrays, spacing),
        0 <= i < arrays.len(),
        arrays[i] is Some,
    ensures
        start_in(arrays, i) == start_in(arrays, 0) + i * (TICK_ARRAY_SIZE * spacing),
        forall|j: int| 0 <= j <= i ==> (#[trigger] arrays[j]) is Some,
    decreases i,
{
    if i > 0 {
        assert(run_link(arrays, spacing, i));
        lemma_run_starts(arrays, spacing, i - 1);
        assert(i * (TICK_ARRAY_SIZE * spacing) == (i - 1) * (TICK_ARRAY_SIZE * spacing) + TICK_ARRAY_SIZE * spacing)
            by (nonlinear_arith);
    }
}

/// The last array among the first `n` slots of a run, with only empty slots
/// after it.
proof fn lemma_run_last(arrays: Seq<Option<TickArrayFacade>>, spacing: int, n: int) -> (j: int)
    requires
        is_evenly_spaced_run(arrays, spacing),
        1 <= n <= arrays.len(),
    ensures
        0 <= j < n,
        arrays[j] is Some,
        forall|i: int| j < i < n ==> (#[trigger] arrays[i]) is None,
        last_start_within(arrays, n) == start_in(arrays, j),
    decreases n,
{
    if arrays[n - 1] is Some {
        n - 1
    } else {
        lemma_run_last(arrays, spacing, n - 1)
    }
}

/// The number of arrays in a run; exactly the slots before it hold arrays.
proof fn lemma_run_count(arrays: Seq<Option<TickArrayFacade>>, spacing: int) -> (count: int)
    requires
        is_evenly_spaced_run(arrays, spacing),
        spacing > 0,
    ensures
        1 <= count <= arrays.len(),
        forall|i: int| 0 <= i < arrays.len() ==> ((#[trigger] arrays[i]) is Some <==> i < count),
        last_array_start(arrays) == start_in(arrays, 0) + (count - 1) * (TICK_ARRAY_SIZE * spacing),
{
    let j = lemma_run_last(arrays, spacing, arrays.len() as int);
    lemma_run_starts(arrays, spacing, j);
    assert forall|i: int| 0 <= i < arrays.len() implies ((#[trigger] arrays[i]) is Some <==> i < j + 1) by {
        if i > j && arrays[i] is Some {
            lemma_run_starts(arrays, spacing, i);
            assert(arrays[j + 1] is Some);
        }
    }
    j + 1
}

/// Building a sequence from a row that already holds an evenly spaced run
/// accepts it, whatever the number of arrays, and keeps the row as it is.
pub proof fn law_new_keeps_evenly_spaced_run(arrays: Seq<Option<TickArrayFacade>>, spacing: int)
    requires
        is_evenly_spaced_run(arrays, spacing),
        spacing > 0,
    ensures
        stable_sorted(arrays) == arrays,
        validation(arrays, spacing) == Ok::<(), CoreError>(()),
{
    let n = arrays.len() as int;
    let count = lemma_run_count(arrays, spacing);
    let w = TICK_ARRAY_SIZE * spacing;
    assert forall|i: int| 0 <= i < n - 1 implies #[trigger] spaced_pair(arrays, spacing, i) by {
        if arrays[i + 1] is Some {
            assert(run_link(arrays, spacing, i + 1));
        }
    }
    assert forall|k: int, l: int| 0 <= k < l < n implies array_start_of(#[trigger] arrays[k]) <= array_start_of(#[trigger] arrays[l]) by {
        if l < count {
            lemma_run_starts(arrays, spacing, k);
            lemma_run_starts(arrays, spacing, l);
            assert(k * w <= l * w) by (nonlinear_arith)
                requires
                    k < l,
                    w > 0,
            ;
        }
    }
    let identity = Seq::new(n as nat, |k: int| k);
    assert forall|a: int| 0 <= a < n implies #[trigger] lists_position(identity, a) by {
        assert(identity[a] == a);
    }
    assert forall|k: int, l: int| 0 <= k < l < n implies ordered_before(arrays, #[trigger] identity[k], #[trigger] identity[l]) by {
        assert(array_start_of(arrays[k]) <= array_start_of(arrays[l]));
    }
    assert(sorts_with(arrays, arrays, identity));
    assert(is_stable_sort(arrays, arrays));
    lemma_stable_sorted_is_the_sort(arrays, arrays);
}

/// A sequence built from an evenly spaced run of `count` arrays starts at its
/// first array's start and ends at its last array's last tick, each clamped to
/// the tick range.
pub proof fn law_run_bounds(arrays: Seq<Option<TickArrayFacade>>, spacing: int) -> (count: int)
    requires
        is_evenly_spaced_run(arrays, spacing),
        spacing > 0,
    ensures
        1 <= count <= arrays.len(),
        forall|i: int| 0 <= i < arrays.len() ==> ((#[trigger] arrays[i]) is Some <==> i < count),
        sequence_start(arrays) == vstd::math::max(start_in(arrays, 0), MIN_TICK_INDEX as int),
        sequence_end(arrays, spacing) == vstd::math::min(
            start_in(arrays, 0) + count * (TICK_ARRAY_SIZE * spacing) - 1,
            MAX_TICK_INDEX as int,
        ),
        sequence_end(arrays, spacing) == vstd::math::min(
            start_in(arrays, count - 1) + TICK_ARRAY_SIZE * spacing - 1,
            MAX_TICK_INDEX as int,
        ),
{
    let count = lemma_run_count(arrays, spacing);
    lemma_run_starts(arrays, spacing, count - 1);
    let w = TICK_ARRAY_SIZE * spacing;
    assert((count - 1) * w + w == count * w) by (nonlinear_arith);
    count
}

/// In a run, the lookup of a tick of one of its arrays, when the sequence
/// covers it, lands on the spacing and gives that tick.
proof fn lemma_run_lookup(arrays: Seq<Option<TickArrayFacade>>, spacing: int, i: int, k: int)
    requires
        is_evenly_spaced_run(arrays, spacing),
        spacing > 0,
        holds_tick(arrays, i, k),
        in_sequence(arrays, spacing, index_of_tick(arrays, spacing, i, k)),
    ensures
        index_of_tick(arrays, spacing, i, k) % spacing == 0,
        tick_lookup(arrays, spacing, index_of_tick(arrays, spacing, i, k)) == Ok::<TickFacade, CoreError>(tick_in(arrays, i, k)),
{
    let c = index_of_tick(arrays, spacing, i, k);
    let w = TICK_ARRAY_SIZE * spacing;
    let first = start_in(arrays, 0);
    lemma_run_starts(arrays, spacing, i);
    lemma_fundamental_div_mod(first, spacing);
    let f0 = first / spacing;
    assert(first == spacing * f0);
    assert(c == (f0 + TICK_ARRAY_SIZE * i + k) * spacing) by (nonlinear_arith)
        requires
            c == first + i * w + k * spacing,
            first == spacing * f0,
            w == TICK_ARRAY_SIZE * spacing,
    ;
    lemma_fundamental_div_mod_converse(c, spacing, f0 + TICK_ARRAY_SIZE * i + k, 0);
    law_new_keeps_evenly_spaced_run(arrays, spacing);
    law_accepted_lookup_finds_spanning_array(arrays, spacing, c);
    let slot = (c - first) / w;
    lemma_run_starts(arrays, spacing, slot);
    assert(0 <= k * spacing < w) by (nonlinear_arith)
        requires
            0 <= k < TICK_ARRAY_SIZE,
            w == TICK_ARRAY_SIZE * spacing,
            spacing > 0,
    ;
    assert(slot == i) by (nonlinear_arith)
        requires
            slot * w <= i * w + k * spacing < slot * w + w,
            0 <= k * spacing < w,
            w > 0,
    ;
    lemma_fundamental_div_mod_converse(c - start_in(arrays, i), spacing, k, 0);
}

/// In a run, an index that the sequence covers and that lies on the spacing
/// is the index of one tick of one of the arrays, and its lookup gives that tick.
proof fn lemma_run_lookup_origin(arrays: Seq<Option<TickArrayFacade>>, spacing: int, c: int) -> (slot_tick: (int, int))
    requires
        is_evenly_spaced_run(arrays, spacing),
        spacing > 0,
        in_sequence(arrays, spacing, c),
        c % spacing == 0,
    ensures
        holds_tick(arrays, slot_tick.0, slot_tick.1),
        c == index_of_tick(arrays, spacing, slot_tick.0, slot_tick.1),
        tick_lookup(arrays, spacing, c) == Ok::<TickFacade, CoreError>(tick_in(arrays, slot_tick.0, slot_tick.1)),
{
    law_new_keeps_evenly_spaced_run(arrays, spacing);
    law_accepted_lookup_finds_spanning_array(arrays, spacing, c);
    let w = TICK_ARRAY_SIZE * spacing;
    let first = start_in(arrays, 0);
    let slot = (c - first) / w;
    lemma_run_starts(arrays, spacing, slot);
    let d = c - start_in(arrays, slot);
    let m = d / spacing;
    lemma_fundamental_div_mod(first, spacing);
    lemma_fundamental_div_mod(c, spacing);
    lemma_fundamental_div_mod(d, spacing);
    let f0 = first / spacing;
    let c0 = c / spacing;
    assert(d == (c0 - f0 - TICK_ARRAY_SIZE * slot) * spacing) by (nonlinear_arith)
        requires
            d == c - (first + slot * w),
            first == spacing * f0 + 0,
            c == spacing * c0 + 0,
            w == TICK_ARRAY_SIZE * spacing,
    ;
    lemma_fundamental_div_mod_converse(d, spacing, c0 - f0 - TICK_ARRAY_SIZE * slot, 0);
    assert(c == start_in(arrays, slot) + m * spacing);
    (slot, m)
}

/// In a run, every tick of an array that lies at or above the sequence's start
/// and at or below `MAX_TICK_INDEX` is covered by the sequence.
proof fn lemma_run_tick_covered(arrays: Seq<Option<TickArrayFacade>>, spacing: int, i: int, k: int)
    requires
        is_evenly_spaced_run(arrays, spacing),
        spacing > 0,
        holds_tick(arrays, i, k),
        MIN_TICK_INDEX <= index_of_tick(arrays, spacing, i, k) <= MAX_TICK_INDEX,
    ensures
        in_sequence(arrays, spacing, index_of_tick(arrays, spacing, i, k)),
{
    let count = law_run_bounds(arrays, spacing);
    let w = TICK_ARRAY_SIZE * spacing;
    lemma_run_starts(arrays, spacing, i);
    assert(i * w >= 0 && (i + 1) * w <= count * w && k * spacing <= w - spacing) by (nonlinear_arith)
        requires
            0 <= i < count,
            0 <= k < TICK_ARRAY_SIZE,
            w == TICK_ARRAY_SIZE * spacing,
            spacing > 0,
    ;
    assert((i + 1) * w == i * w + w) by (nonlinear_arith);
}

/// The upward search over a run finds the first initialized tick above its
/// start index: whenever some array holds an initialized tick above the index
/// (and within the tick range), the search returns an initialized tick of the
/// run, at or below that one, with no initialized tick of the run between the
/// start index and it. The search is not limited to any distance from where it
/// starts; it only needs to start no lower than one below the sequence's start.
pub proof fn law_next_search_finds_first_initialized(
    arrays: Seq<Option<TickArrayFacade>>,
    spacing: int,
    tick_index: int,
    r: Result<(Option<TickFacade>, int), CoreError>,
    i: int,
    k: int,
)
    requires
        is_evenly_spaced_run(arrays, spacing),
        spacing > 0,
        next_search(arrays, spacing, tick_index, r),
        holds_tick(arrays, i, k),
        tick_in(arrays, i, k).initialized,
        tick_index < index_of_tick(arrays, spacing, i, k) <= MAX_TICK_INDEX,
        tick_index >= start_in(arrays, 0) - 1,
        tick_index >= MIN_TICK_INDEX - 1,
    ensures
        r matches Ok((Some(tick), found)) && {
            &&& tick.initialized
            &&& tick_index < found <= index_of_tick(arrays, spacing, i, k)
            &&& exists|j: int, m: int| #[trigger] holds_tick(arrays, j, m)
                && found == index_of_tick(arrays, spacing, j, m) && tick == tick_in(arrays, j, m)
            &&& forall|j: int, m: int| #[trigger] holds_tick(arrays, j, m)
                && tick_index < index_of_tick(arrays, spacing, j, m) < found
                ==> !tick_in(arrays, j, m).initialized
        },
{
    let c = index_of_tick(arrays, spacing, i, k);
    lemma_run_starts(arrays, spacing, i);
    lemma_run_tick_covered(arrays, spacing, i, k);
    lemma_run_lookup(arrays, spacing, i, k);
    assert(above_candidate(arrays, spacing, tick_index, c));
    match r {
        Ok((Some(tick), found)) => {
            if found > c {
                assert(clear_above_until(arrays, spacing, tick_index, found));
                assert(false);
            }
            let (j, m) = lemma_run_lookup_origin(arrays, spacing, found);
            assert(holds_tick(arrays, j, m));
            assert forall|j2: int, m2: int| #[trigger] holds_tick(arrays, j2, m2)
                && tick_index < index_of_tick(arrays, spacing, j2, m2) < found
                implies !tick_in(arrays, j2, m2).initialized by {
                let d = index_of_tick(arrays, spacing, j2, m2);
                lemma_run_starts(arrays, spacing, j2);
                lemma_run_tick_covered(arrays, spacing, j2, m2);
                lemma_run_lookup(arrays, spacing, j2, m2);
                assert(above_candidate(arrays, spacing, tick_index, d));
            }
        },
        Ok((None, _)) => {},
        Err(e) => {
            let stop = choose|s: int| #[trigger] above_candidate(arrays, spacing, tick_index, s)
                && clear_above_until(arrays, spacing, tick_index, s)
                && tick_lookup(arrays, spacing, s) == Err::<TickFacade, CoreError>(e);
            if stop > c {
                assert(clear_above_until(arrays, spacing, tick_index, stop));
            } else {
                let _ = lemma_run_lookup_origin(arrays, spacing, stop);
            }
        },
    }
}

/// When the upward search over a run finds no initialized tick, it reports the
/// end of the run's last array (clamped to `MAX_TICK_INDEX`), and indeed no
/// array of the run holds an initialized tick above the start index within the
/// tick range.
pub proof fn law_next_search_none_means_none_above(
    arrays: Seq<Option<TickArrayFacade>>,
    spacing: int,
    tick_index: int,
    end: int,
) -> (count: int)
    requires
        is_evenly_spaced_run(arrays, spacing),
        spacing > 0,
        next_search(arrays, spacing, tick_index, Ok((None, end))),
    ensures
        1 <= count <= arrays.len(),
        forall|i: int| 0 <= i < arrays.len() ==> ((#[trigger] arrays[i]) is Some <==> i < count),
        end == vstd::math::min(start_in(arrays, count - 1) + TICK_ARRAY_SIZE * spacing - 1, MAX_TICK_INDEX as int),
        forall|j: int, m: int| #[trigger] holds_tick(arrays, j, m)
            && tick_index < index_of_tick(arrays, spacing, j, m)
            && MIN_TICK_INDEX <= index_of_tick(arrays, spacing, j, m) <= MAX_TICK_INDEX
            ==> !tick_in(arrays, j, m).initialized,
{
    let count = law_run_bounds(arrays, spacing);
    assert forall|j: int, m: int| #[trigger] holds_tick(arrays, j, m)
        && tick_index < index_of_tick(arrays, spacing, j, m)
        && MIN_TICK_INDEX <= index_of_tick(arrays, spacing, j, m) <= MAX_TICK_INDEX
        implies !tick_in(arrays, j, m).initialized by {
        lemma_run_tick_covered(arrays, spacing, j, m);
        lemma_run_lookup(arrays, spacing, j, m);
        assert(above_candidate(arrays, spacing, tick_index, index_of_tick(arrays, spacing, j, m)));
    }
    count
}

/// The downward search over a run finds the last initialized tick at or below
/// its start index: whenever some array holds an initialized tick at or below
/// the index (and within the tick range), the search returns an initialized
/// tick of the run, at or above that one, with no initialized tick of the run
/// between it and the start index. The search is not limited to any distance
/// from where it starts; it only needs to start within an array of the run.
pub proof fn law_prev_search_finds_last_initialized(
    arrays: Seq<Option<TickArrayFacade>>,
    spacing: int,
    tick_index: int,
    r: Result<(Option<TickFacade>, int), CoreError>,
    i: int,
    k: int,
    within: int,
)
    requires
        is_evenly_spaced_run(arrays, spacing),
        spacing > 0,
        prev_search(arrays, spacing, tick_index, r),
        holds_tick(arrays, i, k),
        tick_in(arrays, i, k).initialized,
        MIN_TICK_INDEX <= index_of_tick(arrays, spacing, i, k) <= tick_index <= MAX_TICK_INDEX,
        0 <= within < arrays.len(),
        arrays[within] is Some,
        tick_index < start_in(arrays, within) + TICK_ARRAY_SIZE * spacing,
    ensures
        r matches Ok((Some(tick), found)) && {
            &&& tick.initialized
            &&& index_of_tick(arrays, spacing, i, k) <= found <= tick_index
            &&& exists|j: int, m: int| #[trigger] holds_tick(arrays, j, m)
                && found == index_of_tick(arrays, spacing, j, m) && tick == tick_in(arrays, j, m)
            &&& forall|j: int, m: int| #[trigger] holds_tick(arrays, j, m)
                && found < index_of_tick(arrays, spacing, j, m) <= tick_index
                ==> !tick_in(arrays, j, m).initialized
        },
{
    let c = index_of_tick(arrays, spacing, i, k);
    let w = TICK_ARRAY_SIZE * spacing;
    let count = law_run_bounds(arrays, spacing);
    lemma_run_starts(arrays, spacing, i);
    lemma_run_starts(arrays, spacing, within);
    lemma_run_starts(arrays, spacing, count - 1);
    assert(within * w <= (count - 1) * w) by (nonlinear_arith)
        requires
            within <= count - 1,
            w > 0,
    ;
    assert(tick_index <= sequence_end(arrays, spacing));
    lemma_run_tick_covered(arrays, spacing, i, k);
    lemma_run_lookup(arrays, spacing, i, k);
    assert(below_candidate(arrays, spacing, tick_index, c));
    match r {
        Ok((Some(tick), found)) => {
            if found < c {
                assert(clear_below_until(arrays, spacing, tick_index, found));
                assert(false);
            }
            let (j, m) = lemma_run_lookup_origin(arrays, spacing, found);
            assert(holds_tick(arrays, j, m));
            assert forall|j2: int, m2: int| #[trigger] holds_tick(arrays, j2, m2)
                && found < index_of_tick(arrays, spacing, j2, m2) <= tick_index
                implies !tick_in(arrays, j2, m2).initialized by {
                let d = index_of_tick(arrays, spacing, j2, m2);
                lemma_run_starts(arrays, spacing, j2);
                lemma_run_tick_covered(arrays, spacing, j2, m2);
                lemma_run_lookup(arrays, spacing, j2, m2);
                assert(below_candidate(arrays, spacing, tick_index, d));
            }
        },
        Ok((None, _)) => {},
        Err(e) => {
            let stop = choose|s: int| #[trigger] below_candidate(arrays, spacing, tick_index, s)
                && clear_below_until(arrays, spacing, tick_index, s)
                && tick_lookup(arrays, spacing, s) == Err::<TickFacade, CoreError>(e);
            let _ = lemma_run_lookup_origin(arrays, spacing, stop);
        },
    }
}

/// When the downward search over a run finds no initialized tick, it reports
/// the start of the run's first array (clamped to `MIN_TICK_INDEX`), and
/// indeed no array of the run holds an initialized tick at or below the start
/// index within the tick range.
pub proof fn law_prev_search_none_means_none_below(
    arrays: Seq<Option<TickArrayFacade>>,
    spacing: int,
    tick_index: int,
    start: int,
)
    requires
        is_evenly_spaced_run(arrays, spacing),
        spacing > 0,
        prev_search(arrays, spacing, tick_index, Ok((None, start))),
    ensures
        start == vstd::math::max(start_in(arrays, 0), MIN_TICK_INDEX as int),
        forall|j: int, m: int| #[trigger] holds_tick(arrays, j, m)
            && index_of_tick(arrays, spacing, j, m) <= tick_index
            && MIN_TICK_INDEX <= index_of_tick(arrays, spacing, j, m) <= MAX_TICK_INDEX
            ==> !tick_in(arrays, j, m).initialized,
{
    let count = law_run_bounds(arrays, spacing);
    assert forall|j: int, m: int| #[trigger] holds_tick(arrays, j, m)
        && index_of_tick(arrays, spacing, j, m) <= tick_index
        && MIN_TICK_INDEX <= index_of_tick(arrays, spacing, j, m) <= MAX_TICK_INDEX
        implies !tick_in(arrays, j, m).initialized by {
        lemma_run_tick_covered(arrays, spacing, j, m);
        lemma_run_lookup(arrays, spacing, j, m);
        assert(below_candidate(arrays, spacing, tick_index, index_of_tick(arrays, spacing, j, m)));
    }
}

} // verus!
