//! Properties of tick array sequences that span several operations.
use vstd::prelude::*;

use vstd::relations::injective_on;
use vstd::set_lib::{lemma_int_range, lemma_len_subset, lemma_map_size, set_int_range};

use crate::constants::{MAX_TICK_INDEX, MIN_TICK_INDEX, TICK_ARRAY_SIZE};
use crate::error::CoreError;
use crate::model::{
    above_candidate, array_start_of, array_width, below_candidate, clear_above_until,
    clear_below_until, deref_array, end_fits, evenly_spaced, first_array_start, in_sequence,
    is_permutation, is_stable_sort, last_array_start, last_start_within, lemma_stable_sort_exists,
    lists_position, next_search, next_search_safe, ordered_before, prev_search, prev_search_safe,
    sequence_end, sequence_start, sorted_by_start, sorts_with, spaced_pair, stable_sorted,
    tick_lookup, tick_lookup_safe, tick_offset, tick_slot, validation,
};
use crate::tick_array::{borrowed_arrays, owned_arrays, BorrowedTickArraySequence, TickArraySequence};
use crate::types::{TickArrayFacade, TickFacade};

verus! {

/// A stable sort by start index leaves the starts in non-decreasing order,
/// with empty slots after every array.
pub proof fn law_sort_orders_by_start(input: Seq<Option<TickArrayFacade>>, output: Seq<Option<TickArrayFacade>>)
    requires
        is_stable_sort(input, output),
    ensures
        sorted_by_start(output),
{
    let perm = choose|p: Seq<int>| sorts_with(input, output, p);
    assert forall|k: int, l: int| 0 <= k < l < output.len() implies array_start_of(#[trigger] output[k])
        <= array_start_of(#[trigger] output[l]) by {
        assert(ordered_before(input, perm[k], perm[l]));
    }
}

/// A borrowed row whose slots refer to the arrays of an owned row holds the
/// same arrays, so building a sequence from either sorts them into the same
/// order and accepts or refuses them alike.
pub proof fn law_borrowed_rows_match_owned<const SIZE: usize>(
    owned: [Option<TickArrayFacade>; SIZE],
    borrowed: [Option<&TickArrayFacade>; SIZE],
    spacing: int,
)
    requires
        forall|i: int| 0 <= i < SIZE ==> deref_array(#[trigger] borrowed@[i]) == owned@[i],
    ensures
        borrowed_arrays(borrowed) == owned_arrays(owned),
        stable_sorted(borrowed_arrays(borrowed)) == stable_sorted(owned_arrays(owned)),
        validation(stable_sorted(borrowed_arrays(borrowed)), spacing) == validation(stable_sorted(owned_arrays(owned)), spacing),
{
    assert(borrowed_arrays(borrowed) =~= owned_arrays(owned));
}

/// In an accepted sequence every array starts a whole number of array widths
/// after the first one, and no slot before it is empty.
pub proof fn law_accepted_array_starts(arrays: Seq<Option<TickArrayFacade>>, spacing: int, k: int)
    requires
        validation(arrays, spacing) == Ok::<(), CoreError>(()),
        spacing > 0,
        0 <= k < arrays.len(),
        array_start_of(arrays[k]) != i32::MAX,
    ensures
        array_start_of(arrays[k]) == first_array_start(arrays) + k * array_width(spacing),
        forall|j: int| 0 <= j <= k ==> array_start_of(#[trigger] arrays[j]) != i32::MAX,
    decreases k,
{
    if k > 0 {
        assert(spaced_pair(arrays, spacing, k - 1));
        if array_start_of(arrays[k - 1]) == i32::MAX {
            assert(array_start_of(arrays[k]) <= i32::MAX);
            assert(false);
        }
        law_accepted_array_starts(arrays, spacing, k - 1);
        assert(k * array_width(spacing) == (k - 1) * array_width(spacing) + array_width(spacing)) by (nonlinear_arith);
    }
}

/// In an accepted sequence the last array is the last slot whose start is not
/// `i32::MAX`, and every slot after it starts at `i32::MAX`.
proof fn lemma_accepted_last_array(arrays: Seq<Option<TickArrayFacade>>, spacing: int, n: int) -> (j: int)
    requires
        validation(arrays, spacing) == Ok::<(), CoreError>(()),
        spacing > 0,
        first_array_start(arrays) != i32::MAX,
        1 <= n <= arrays.len(),
    ensures
        0 <= j < n,
        array_start_of(arrays[j]) != i32::MAX,
        last_start_within(arrays, n) == array_start_of(arrays[j]),
        forall|i: int| j < i < n ==> array_start_of(#[trigger] arrays[i]) == i32::MAX,
    decreases n,
{
    if array_start_of(arrays[n - 1]) != i32::MAX {
        n - 1
    } else {
        lemma_accepted_last_array(arrays, spacing, n - 1)
    }
}

/// In an accepted sequence, a lookup of an index that the sequence covers and
/// that lies on the spacing finds the array that spans the index, and gives the
/// tick at the index's position in it.
pub proof fn law_accepted_lookup_finds_spanning_array(arrays: Seq<Option<TickArrayFacade>>, spacing: int, tick_index: int)
    requires
        validation(arrays, spacing) == Ok::<(), CoreError>(()),
        spacing > 0,
        in_sequence(arrays, spacing, tick_index),
        tick_index % spacing == 0,
    ensures
        ({
            let k = tick_slot(arrays, spacing, tick_index);
            &&& 0 <= k < arrays.len()
            &&& arrays[k] is Some
            &&& {
                let array = arrays[k]->Some_0;
                &&& first_array_start(arrays) <= array.start_tick_index <= tick_index < array.start_tick_index + array_width(spacing)
                &&& tick_offset(array, spacing, tick_index) == (tick_index - array.start_tick_index) / spacing
                &&& 0 <= tick_offset(array, spacing, tick_index) < TICK_ARRAY_SIZE
                &&& tick_lookup(arrays, spacing, tick_index) == Ok::<TickFacade, CoreError>(
                    array.ticks@[(tick_index - array.start_tick_index) / spacing],
                )
            }
        }),
{
    let first = first_array_start(arrays);
    let w = array_width(spacing);
    assert(first != i32::MAX) by {
        assert(sequence_start(arrays) <= tick_index <= sequence_end(arrays, spacing));
        assert(sequence_end(arrays, spacing) <= MAX_TICK_INDEX);
    }
    let j = lemma_accepted_last_array(arrays, spacing, arrays.len() as int);
    law_accepted_array_starts(arrays, spacing, j);
    assert(last_array_start(arrays) == first + j * w);
    let d = tick_index - first;
    let k = d / w;
    assert(w > 0);
    assert(0 <= d <= j * w + w - 1);
    assert(0 <= k <= j && k * w <= d < k * w + w) by (nonlinear_arith)
        requires
            k == d / w,
            w > 0,
            0 <= d <= j * w + w - 1,
    ;
    assert(k == tick_slot(arrays, spacing, tick_index));
    assert(array_start_of(arrays[k]) != i32::MAX);
    law_accepted_array_starts(arrays, spacing, k);
    assert(k * w >= 0) by (nonlinear_arith)
        requires
            k >= 0,
            w > 0,
    ;
    let array = arrays[k]->Some_0;
    let r = tick_index - array.start_tick_index;
    assert(0 <= r < w);
    assert(0 <= r / spacing < TICK_ARRAY_SIZE) by (nonlinear_arith)
        requires
            0 <= r < w,
            w == TICK_ARRAY_SIZE * spacing,
            spacing > 0,
    ;
}

/// In an accepted sequence whose end fits in `i32` and whose first array
/// starts no further than `i32::MAX` below `MAX_TICK_INDEX`, every lookup is
/// safe to make.
pub proof fn law_accepted_lookup_safe(arrays: Seq<Option<TickArrayFacade>>, spacing: int, tick_index: int)
    requires
        validation(arrays, spacing) == Ok::<(), CoreError>(()),
        spacing > 0,
        end_fits(arrays, spacing),
        first_array_start(arrays) >= MAX_TICK_INDEX - i32::MAX,
    ensures
        tick_lookup_safe(arrays, spacing, tick_index),
{
    if in_sequence(arrays, spacing, tick_index) && tick_index % spacing == 0 {
        law_accepted_lookup_finds_spanning_array(arrays, spacing, tick_index);
        assert(sequence_end(arrays, spacing) <= MAX_TICK_INDEX);
        assert(tick_index - first_array_start(arrays) <= i32::MAX);
        let k = tick_slot(arrays, spacing, tick_index);
        let array = arrays[k]->Some_0;
        assert(i32::MIN <= tick_index - array.start_tick_index <= i32::MAX);
        assert(0 <= tick_offset(array, spacing, tick_index) < TICK_ARRAY_SIZE);
    }
}

/// The upward search has one outcome for each start.
pub proof fn law_next_search_deterministic(
    arrays: Seq<Option<TickArrayFacade>>,
    spacing: int,
    tick_index: int,
    r1: Result<(Option<TickFacade>, int), CoreError>,
    r2: Result<(Option<TickFacade>, int), CoreError>,
)
    requires
        next_search(arrays, spacing, tick_index, r1),
        next_search(arrays, spacing, tick_index, r2),
    ensures
        r1 == r2,
{
    if tick_index < sequence_end(arrays, spacing) {
        let c1 = search_stop(r1, arrays, spacing, tick_index, true);
        let c2 = search_stop(r2, arrays, spacing, tick_index, true);
        match (r1, r2) {
            (Ok((None, _)), Ok((None, _))) => {},
            (Ok((None, _)), _) => {
                assert(above_candidate(arrays, spacing, tick_index, c2));
            },
            (_, Ok((None, _))) => {
                assert(above_candidate(arrays, spacing, tick_index, c1));
            },
            _ => {
                if c1 < c2 {
                    assert(above_candidate(arrays, spacing, tick_index, c1));
                } else if c2 < c1 {
                    assert(above_candidate(arrays, spacing, tick_index, c2));
                }
            },
        }
    }
}

/// The downward search has one outcome for each start.
pub proof fn law_prev_search_deterministic(
    arrays: Seq<Option<TickArrayFacade>>,
    spacing: int,
    tick_index: int,
    r1: Result<(Option<TickFacade>, int), CoreError>,
    r2: Result<(Option<TickFacade>, int), CoreError>,
)
    requires
        prev_search(arrays, spacing, tick_index, r1),
        prev_search(arrays, spacing, tick_index, r2),
    ensures
        r1 == r2,
{
    if tick_index >= sequence_start(arrays) {
        let c1 = search_stop(r1, arrays, spacing, tick_index, false);
        let c2 = search_stop(r2, arrays, spacing, tick_index, false);
        match (r1, r2) {
            (Ok((None, _)), Ok((None, _))) => {},
            (Ok((None, _)), _) => {
                assert(below_candidate(arrays, spacing, tick_index, c2));
            },
            (_, Ok((None, _))) => {
                assert(below_candidate(arrays, spacing, tick_index, c1));
            },
            _ => {
                if c1 < c2 {
                    assert(below_candidate(arrays, spacing, tick_index, c2));
                } else if c2 < c1 {
                    assert(below_candidate(arrays, spacing, tick_index, c1));
                }
            },
        }
    }
}

/// The index at which a search that found a tick or failed a lookup stopped.
spec fn search_stop(
    r: Result<(Option<TickFacade>, int), CoreError>,
    arrays: Seq<Option<TickArrayFacade>>,
    spacing: int,
    tick_index: int,
    upward: bool,
) -> int {
    match r {
        Ok((_, c)) => c,
        Err(e) => if upward {
            choose|c: int| #[trigger] above_candidate(arrays, spacing, tick_index, c) && clear_above_until(arrays, spacing, tick_index, c)
                && tick_lookup(arrays, spacing, c) == Err::<TickFacade, CoreError>(e)
        } else {
            choose|c: int| #[trigger] below_candidate(arrays, spacing, tick_index, c) && clear_below_until(arrays, spacing, tick_index, c)
                && tick_lookup(arrays, spacing, c) == Err::<TickFacade, CoreError>(e)
        },
    }
}

/// The initialized tick that the upward search finds is found again by the
/// downward search started at its index.
pub proof fn law_next_found_again_by_prev(
    arrays: Seq<Option<TickArrayFacade>>,
    spacing: int,
    tick_index: int,
    tick: TickFacade,
    found: int,
)
    requires
        spacing > 0,
        next_search(arrays, spacing, tick_index, Ok((Some(tick), found))),
    ensures
        prev_search(arrays, spacing, found, Ok((Some(tick), found))),
{
    assert(below_candidate(arrays, spacing, found, found));
}

/// The initialized tick that the downward search finds is found again by the
/// upward search started just below its index.
pub proof fn law_prev_found_again_by_next(
    arrays: Seq<Option<TickArrayFacade>>,
    spacing: int,
    tick_index: int,
    tick: TickFacade,
    found: int,
)
    requires
        spacing > 0,
        prev_search(arrays, spacing, tick_index, Ok((Some(tick), found))),
    ensures
        next_search(arrays, spacing, found - 1, Ok((Some(tick), found))),
{
    assert(above_candidate(arrays, spacing, found - 1, found));
}

/// In an accepted sequence, the upward search from an index from just below
/// the start up to (not including) the end never fails.
pub proof fn law_accepted_next_search_succeeds(
    arrays: Seq<Option<TickArrayFacade>>,
    spacing: int,
    tick_index: int,
    r: Result<(Option<TickFacade>, int), CoreError>,
)
    requires
        validation(arrays, spacing) == Ok::<(), CoreError>(()),
        spacing > 0,
        sequence_start(arrays) - 1 <= tick_index < sequence_end(arrays, spacing),
        next_search(arrays, spacing, tick_index, r),
    ensures
        r is Ok,
{
    if let Err(e) = r {
        let c = choose|c: int| #[trigger] above_candidate(arrays, spacing, tick_index, c)
            && clear_above_until(arrays, spacing, tick_index, c)
            && tick_lookup(arrays, spacing, c) == Err::<TickFacade, CoreError>(e);
        law_accepted_lookup_finds_spanning_array(arrays, spacing, c);
    }
}

/// In an accepted sequence, the downward search from an index that the
/// sequence covers never fails.
pub proof fn law_accepted_prev_search_succeeds(
    arrays: Seq<Option<TickArrayFacade>>,
    spacing: int,
    tick_index: int,
    r: Result<(Option<TickFacade>, int), CoreError>,
)
    requires
        validation(arrays, spacing) == Ok::<(), CoreError>(()),
        spacing > 0,
        in_sequence(arrays, spacing, tick_index),
        prev_search(arrays, spacing, tick_index, r),
    ensures
        r is Ok,
{
    if let Err(e) = r {
        let c = choose|c: int| #[trigger] below_candidate(arrays, spacing, tick_index, c)
            && clear_below_until(arrays, spacing, tick_index, c)
            && tick_lookup(arrays, spacing, c) == Err::<TickFacade, CoreError>(e);
        law_accepted_lookup_finds_spanning_array(arrays, spacing, c);
    }
}

/// Listing the slots of `arrays` in the order `perm` gives starts that never decrease.
spec fn starts_rise_along(arrays: Seq<Option<TickArrayFacade>>, perm: Seq<int>) -> bool {
    forall|j: int, l: int| 0 <= j < l < perm.len()
        ==> array_start_of(arrays[#[trigger] perm[j]]) <= array_start_of(arrays[#[trigger] perm[l]])
}

/// Two orders of the same slots in which starts never decrease put equal
/// starts at each position: the `k`-th start of the first is not smaller.
proof fn lemma_rising_orders_no_smaller_start(arrays: Seq<Option<TickArrayFacade>>, r1: Seq<int>, r2: Seq<int>, k: int)
    requires
        is_permutation(r1, arrays.len() as int),
        is_permutation(r2, arrays.len() as int),
        starts_rise_along(arrays, r1),
        starts_rise_along(arrays, r2),
        0 <= k < arrays.len(),
    ensures
        array_start_of(arrays[r1[k]]) >= array_start_of(arrays[r2[k]]),
{
    if array_start_of(arrays[r1[k]]) >= array_start_of(arrays[r2[k]]) {
        return;
    }
    let n = arrays.len() as int;
    let bound = array_start_of(arrays[r1[k]]);
    let low = Set::new(|i: int| 0 <= i < n && array_start_of(arrays[i]) <= bound);
    lemma_int_range(0, n);
    assert(low.subset_of(set_int_range(0, n)));
    lemma_len_subset(low, set_int_range(0, n));

    let first_k = set_int_range(0, k + 1);
    let at1 = |j: int| r1[j];
    let image1 = first_k.map(at1);
    lemma_int_range(0, k + 1);
    assert(injective_on(at1, first_k));
    lemma_map_size(first_k, image1, at1);
    assert forall|i: int| image1.contains(i) implies low.contains(i) by {
        let j = choose|j: int| first_k.contains(j) && at1(j) == i;
        if j < k {
            assert(array_start_of(arrays[r1[j]]) <= array_start_of(arrays[r1[k]]));
        }
    }
    lemma_len_subset(image1, low);

    let position2 = |i: int| choose|j: int| 0 <= j < n && #[trigger] r2[j] == i;
    let image2 = low.map(position2);
    assert forall|i: int| #[trigger] low.contains(i) implies 0 <= position2(i) < n && r2[position2(i)] == i by {
        assert(lists_position(r2, i));
    }
    assert(injective_on(position2, low));
    lemma_map_size(low, image2, position2);
    let before_k = set_int_range(0, k);
    assert forall|j: int| image2.contains(j) implies before_k.contains(j) by {
        let i = choose|i: int| low.contains(i) && position2(i) == j;
        if j > k {
            assert(array_start_of(arrays[r2[k]]) <= array_start_of(arrays[r2[j]]));
        }
    }
    lemma_int_range(0, k);
    lemma_len_subset(image2, before_k);
}

/// Building a sequence does not depend on the order in which the arrays are
/// given: a rearrangement of the same slots is accepted or refused with the
/// same error, and once accepted (with a nonzero spacing) it is sorted into
/// the same sequence. This needs that no array starts at `i32::MAX`, where an
/// array and an empty slot would share a start.
pub proof fn law_new_ignores_input_order(
    a: Seq<Option<TickArrayFacade>>,
    b: Seq<Option<TickArrayFacade>>,
    order: Seq<int>,
    spacing: int,
)
    requires
        b.len() == a.len(),
        is_permutation(order, a.len() as int),
        forall|i: int| 0 <= i < a.len() ==> b[i] == a[#[trigger] order[i]],
        forall|i: int| 0 <= i < a.len() && (#[trigger] a[i]) is Some ==> array_start_of(a[i]) != i32::MAX,
    ensures
        validation(stable_sorted(b), spacing) == validation(stable_sorted(a), spacing),
        spacing > 0 && validation(stable_sorted(a), spacing) == Ok::<(), CoreError>(()) ==> stable_sorted(b) == stable_sorted(a),
{
    let n = a.len() as int;
    lemma_stable_sort_exists(a);
    lemma_stable_sort_exists(b);
    let out_a = stable_sorted(a);
    let out_b = stable_sorted(b);
    let pa = choose|p: Seq<int>| sorts_with(a, out_a, p);
    let pb = choose|p: Seq<int>| sorts_with(b, out_b, p);
    let rb = Seq::new(n as nat, |k: int| order[pb[k]]);

    assert forall|j: int, k: int| 0 <= j < n && 0 <= k < n && j != k implies #[trigger] pa[j] != #[trigger] pa[k] by {
        if j < k {
            assert(ordered_before(a, pa[j], pa[k]));
        } else {
            assert(ordered_before(a, pa[k], pa[j]));
        }
    }
    assert(is_permutation(pa, n));
    assert forall|j: int, k: int| 0 <= j < n && 0 <= k < n && j != k implies #[trigger] rb[j] != #[trigger] rb[k] by {
        if j < k {
            assert(ordered_before(b, pb[j], pb[k]));
        } else {
            assert(ordered_before(b, pb[k], pb[j]));
        }
    }
    assert forall|x: int| 0 <= x < n implies #[trigger] lists_position(rb, x) by {
        assert(lists_position(order, x));
        let i = choose|i: int| 0 <= i < n && #[trigger] order[i] == x;
        assert(lists_position(pb, i));
        let k = choose|k: int| 0 <= k < n && #[trigger] pb[k] == i;
        assert(rb[k] == x);
    }
    assert(is_permutation(rb, n));
    assert forall|k: int| 0 <= k < n implies out_b[k] == a[#[trigger] rb[k]] by {
        assert(out_b[k] == b[pb[k]]);
    }
    assert forall|j: int, l: int| 0 <= j < l < n implies array_start_of(a[#[trigger] pa[j]]) <= array_start_of(a[#[trigger] pa[l]]) by {
        assert(ordered_before(a, pa[j], pa[l]));
    }
    assert forall|j: int, l: int| 0 <= j < l < n implies array_start_of(a[#[trigger] rb[j]]) <= array_start_of(a[#[trigger] rb[l]]) by {
        assert(ordered_before(b, pb[j], pb[l]));
        assert(out_b[j] == a[rb[j]] && out_b[l] == a[rb[l]]);
    }
    assert forall|k: int| 0 <= k < n implies array_start_of(#[trigger] out_a[k]) == array_start_of(out_b[k]) by {
        assert(out_b[k] == a[rb[k]]);
        lemma_rising_orders_no_smaller_start(a, pa, rb, k);
        lemma_rising_orders_no_smaller_start(a, rb, pa, k);
    }
    assert forall|k: int| 0 <= k < n implies (#[trigger] out_a[k] is None) == (out_b[k] is None) by {
        assert(out_b[k] == a[rb[k]]);
        assert(out_a[k] == a[pa[k]]);
    }
    assert forall|i: int| 0 <= i < n - 1 implies #[trigger] spaced_pair(out_a, spacing, i) == spaced_pair(out_b, spacing, i) by {
        assert(array_start_of(out_a[i]) == array_start_of(out_b[i]));
        assert(array_start_of(out_a[i + 1]) == array_start_of(out_b[i + 1]));
    }
    if n > 0 {
        assert(out_a[0] is None == out_b[0] is None);
    }
    assert(evenly_spaced(out_a, spacing) == evenly_spaced(out_b, spacing)) by {
        if evenly_spaced(out_a, spacing) {
            assert forall|i: int| 0 <= i < n - 1 implies #[trigger] spaced_pair(out_b, spacing, i) by {
                assert(spaced_pair(out_a, spacing, i));
            }
        }
        if evenly_spaced(out_b, spacing) {
            assert forall|i: int| 0 <= i < n - 1 implies #[trigger] spaced_pair(out_a, spacing, i) by {
                assert(spaced_pair(out_b, spacing, i));
            }
        }
    }
    if spacing > 0 && validation(out_a, spacing) == Ok::<(), CoreError>(()) {
        assert forall|k: int| 0 <= k < n implies out_a[k] == out_b[k] by {
            assert(out_b[k] == a[rb[k]]);
            assert(out_a[k] == a[pa[k]]);
            if out_a[k] is Some && pa[k] != rb[k] {
                let j = rb[k];
                assert(lists_position(pa, j));
                let y = choose|y: int| 0 <= y < n && #[trigger] pa[y] == j;
                assert(out_a[y] == a[j]);
                law_accepted_array_starts(out_a, spacing, k);
                law_accepted_array_starts(out_a, spacing, y);
                let w = array_width(spacing);
                assert(k * w == y * w);
                assert(k == y) by (nonlinear_arith)
                    requires
                        k * w == y * w,
                        w > 0,
                ;
            }
        }
        assert(out_a =~= out_b);
    }
}

/// An accepted sequence holds its arrays in a first run of `count` slots, each
/// starting one array width after the one before, and every later slot starts
/// at `i32::MAX` (so is empty when no array starts there).
pub proof fn law_accepted_shape(arrays: Seq<Option<TickArrayFacade>>, spacing: int) -> (count: int)
    requires
        validation(arrays, spacing) == Ok::<(), CoreError>(()),
        spacing > 0,
        first_array_start(arrays) != i32::MAX,
    ensures
        1 <= count <= arrays.len(),
        forall|i: int| 0 <= i < count ==> (#[trigger] arrays[i]) is Some
            && array_start_of(arrays[i]) == first_array_start(arrays) + i * array_width(spacing),
        forall|i: int| count <= i < arrays.len() ==> array_start_of(#[trigger] arrays[i]) == i32::MAX,
        (forall|i: int| 0 <= i < arrays.len() && (#[trigger] arrays[i]) is Some ==> array_start_of(arrays[i]) != i32::MAX)
            ==> forall|i: int| count <= i < arrays.len() ==> (#[trigger] arrays[i]) is None,
        last_array_start(arrays) == first_array_start(arrays) + (count - 1) * array_width(spacing),
{
    let j = lemma_accepted_last_array(arrays, spacing, arrays.len() as int);
    law_accepted_array_starts(arrays, spacing, j);
    assert forall|i: int| 0 <= i < j + 1 implies (#[trigger] arrays[i]) is Some
        && array_start_of(arrays[i]) == first_array_start(arrays) + i * array_width(spacing) by {
        law_accepted_array_starts(arrays, spacing, i);
    }
    j + 1
}

/// An accepted sequence whose arrays reach into the tick range (the first
/// starts at or below `MAX_TICK_INDEX`, the last ends at or above
/// `MIN_TICK_INDEX`) starts and ends within the range, start before end, and
/// spans at most its `count` arrays.
pub proof fn law_accepted_span(arrays: Seq<Option<TickArrayFacade>>, spacing: int) -> (count: int)
    requires
        validation(arrays, spacing) == Ok::<(), CoreError>(()),
        spacing > 0,
        first_array_start(arrays) <= MAX_TICK_INDEX,
        last_array_start(arrays) + array_width(spacing) - 1 >= MIN_TICK_INDEX,
    ensures
        1 <= count <= arrays.len(),
        forall|i: int| 0 <= i < count ==> (#[trigger] arrays[i]) is Some,
        forall|i: int| count <= i < arrays.len() ==> array_start_of(#[trigger] arrays[i]) == i32::MAX,
        MIN_TICK_INDEX <= sequence_start(arrays) <= sequence_end(arrays, spacing) <= MAX_TICK_INDEX,
        sequence_end(arrays, spacing) - sequence_start(arrays) <= count * array_width(spacing) - 1,
{
    let count = law_accepted_shape(arrays, spacing);
    let w = array_width(spacing);
    assert((count - 1) * w >= 0 && (count - 1) * w + w == count * w) by (nonlinear_arith)
        requires
            count >= 1,
            w > 0,
    ;
    count
}

/// An owned and a borrowed sequence over the same arrays with the same spacing
/// answer every query alike: the same start and end, and, at every index, the
/// same lookup and the same searches, each safe to make on one exactly when
/// it is on the other.
pub proof fn law_borrowed_sequence_matches_owned<'a, const SIZE: usize>(
    owned: TickArraySequence<SIZE>,
    borrowed: BorrowedTickArraySequence<'a, SIZE>,
)
    requires
        forall|i: int| 0 <= i < SIZE ==> deref_array(#[trigger] borrowed.tick_arrays@[i]) == owned.tick_arrays@[i],
        borrowed.tick_spacing == owned.tick_spacing,
    ensures
        borrowed.arrays() == owned.arrays(),
        sequence_start(borrowed.arrays()) == sequence_start(owned.arrays()),
        end_fits(borrowed.arrays(), borrowed.tick_spacing as int) == end_fits(owned.arrays(), owned.tick_spacing as int),
        sequence_end(borrowed.arrays(), borrowed.tick_spacing as int) == sequence_end(owned.arrays(), owned.tick_spacing as int),
        forall|t: int| #[trigger] tick_lookup(borrowed.arrays(), borrowed.tick_spacing as int, t)
            == tick_lookup(owned.arrays(), owned.tick_spacing as int, t),
        forall|t: int| #[trigger] tick_lookup_safe(borrowed.arrays(), borrowed.tick_spacing as int, t)
            == tick_lookup_safe(owned.arrays(), owned.tick_spacing as int, t),
        forall|t: int| #[trigger] next_search_safe(borrowed.arrays(), borrowed.tick_spacing as int, t)
            == next_search_safe(owned.arrays(), owned.tick_spacing as int, t),
        forall|t: int| #[trigger] prev_search_safe(borrowed.arrays(), borrowed.tick_spacing as int, t)
            == prev_search_safe(owned.arrays(), owned.tick_spacing as int, t),
        forall|t: int, r: Result<(Option<TickFacade>, int), CoreError>| #[trigger] next_search(borrowed.arrays(), borrowed.tick_spacing as int, t, r)
            == next_search(owned.arrays(), owned.tick_spacing as int, t, r),
        forall|t: int, r: Result<(Option<TickFacade>, int), CoreError>| #[trigger] prev_search(borrowed.arrays(), borrowed.tick_spacing as int, t, r)
            == prev_search(owned.arrays(), owned.tick_spacing as int, t, r),
{
    law_borrowed_rows_match_owned(owned.tick_arrays, borrowed.tick_arrays, owned.tick_spacing as int);
}

} // verus!
