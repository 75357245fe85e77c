//! Sequences of tick arrays, owned or borrowed, and the queries on them.
use vstd::prelude::*;

use crate::constants::{MAX_TICK_INDEX, MIN_TICK_INDEX, TICK_ARRAY_SIZE};
use crate::error::{
    CoreError, INVALID_TICK_ARRAY_SEQUENCE, INVALID_TICK_INDEX, TICK_ARRAY_NOT_EVENLY_SPACED,
    TICK_INDEX_OUT_OF_BOUNDS, TICK_SEQUENCE_EMPTY,
};
use crate::model::{
    above_candidate, array_start_of, array_width, below_candidate, clear_above_until, deref_array,
    end_fits, halts_at, is_stable_sort, last_start_within, lemma_stable_sorted_is_the_sort,
    lists_position, next_search, next_search_safe, ordered_before, prev_search, prev_search_safe,
    search_value, sequence_end, sequence_start, sorts_with, spaced_pair, spacing_check_fits,
    stable_sorted, tick_lookup, tick_lookup_safe, tick_offset, tick_slot, validation,
};
use crate::tick::{
    div_rem_floor, floor_multiple, get_initializable_tick_index, get_next_initializable_tick_index,
    get_prev_initializable_tick_index, lemma_floor_multiple,
};
use crate::types::{TickArrayFacade, TickFacade};

verus! {

/// A fixed row of tick array slots, each of which may be empty.
trait TickArrayStorage {
    /// The slots, each array taken by value.
    spec fn arrays(&self) -> Seq<Option<TickArrayFacade>>;

    fn len(&self) -> (r: usize)
        ensures
            r == self.arrays().len(),
    ;

    fn array(&self, index: usize) -> (r: Option<&TickArrayFacade>)
        ensures
            index < self.arrays().len() ==> deref_array(r) == self.arrays()[index as int],
            index >= self.arrays().len() ==> r is None,
    ;

    fn swap_arrays(&mut self, i: usize, j: usize)
        requires
            i < old(self).arrays().len(),
            j < old(self).arrays().len(),
        ensures
            final(self).arrays() == old(self).arrays().update(i as int, old(self).arrays()[j as int]).update(
                j as int,
                old(self).arrays()[i as int],
            ),
    ;
}

/// The slots of an owned row, by value.
pub open spec fn owned_arrays<const SIZE: usize>(tick_arrays: [Option<TickArrayFacade>; SIZE]) -> Seq<Option<TickArrayFacade>> {
    tick_arrays@
}

/// The slots of a borrowed row, by value.
pub open spec fn borrowed_arrays<const SIZE: usize>(tick_arrays: [Option<&TickArrayFacade>; SIZE]) -> Seq<Option<TickArrayFacade>> {
    tick_arrays@.map_values(|array: Option<&TickArrayFacade>| deref_array(array))
}

impl<const SIZE: usize> TickArrayStorage for [Option<TickArrayFacade>; SIZE] {
    spec fn arrays(&self) -> Seq<Option<TickArrayFacade>> {
        owned_arrays(*self)
    }

    fn len(&self) -> (r: usize) {
        SIZE
    }

    fn array(&self, index: usize) -> (r: Option<&TickArrayFacade>) {
        if index < SIZE {
            match &self[index] {
                Some(array) => Some(array),
                None => None,
            }
        } else {
            None
        }
    }

    fn swap_arrays(&mut self, i: usize, j: usize) {
        let a = self[i];
        let b = self[j];
        self[i] = b;
        self[j] = a;
    }
}

impl<'a, const SIZE: usize> TickArrayStorage for [Option<&'a TickArrayFacade>; SIZE] {
    spec fn arrays(&self) -> Seq<Option<TickArrayFacade>> {
        borrowed_arrays(*self)
    }

    fn len(&self) -> (r: usize) {
        SIZE
    }

    fn array(&self, index: usize) -> (r: Option<&TickArrayFacade>) {
        if index < SIZE {
            self[index]
        } else {
            None
        }
    }

    fn swap_arrays(&mut self, i: usize, j: usize) {
        let a = self[i];
        let b = self[j];
        self[i] = b;
        self[j] = a;
        proof {
            assert(self.arrays() =~= old(self).arrays().update(i as int, old(self).arrays()[j as int]).update(
                j as int,
                old(self).arrays()[i as int],
            ));
        }
    }
}

fn array_start(array: Option<&TickArrayFacade>) -> (r: i32)
    ensures
        r == array_start_of(deref_array(array)),
{
    match array {
        Some(array) => array.start_tick_index,
        None => i32::MAX,
    }
}

fn sequence_start_index<S: TickArrayStorage>(arrays: &S) -> (r: i32)
    ensures
        r == sequence_start(arrays.arrays()),
{
    let first = array_start(arrays.array(0));
    if first < MIN_TICK_INDEX {
        MIN_TICK_INDEX
    } else {
        first
    }
}

fn sequence_end_index<S: TickArrayStorage>(arrays: &S, spacing: u16) -> (r: i32)
    requires
        end_fits(arrays.arrays(), spacing as int),
    ensures
        r == sequence_end(arrays.arrays(), spacing as int),
{
    let mut last = sequence_start_index(arrays);
    let len = arrays.len();
    let mut index: usize = 0;
    while index < len
        invariant
            len == arrays.arrays().len(),
            index <= len,
            last == last_start_within(arrays.arrays(), index as int),
        decreases len - index,
    {
        let start = array_start(arrays.array(index));
        if start != i32::MAX {
            last = start;
        }
        index += 1;
    }
    let end = last + TICK_ARRAY_SIZE as i32 * spacing as i32 - 1;
    if end > MAX_TICK_INDEX {
        MAX_TICK_INDEX
    } else {
        end
    }
}

fn validate_sequence<S: TickArrayStorage>(arrays: &S, spacing: u16) -> (r: Result<(), CoreError>)
    requires
        spacing_check_fits(arrays.arrays(), spacing as int),
    ensures
        r == validation(arrays.arrays(), spacing as int),
{
    let len = arrays.len();
    if len == 0 || arrays.array(0).is_none() {
        return Err(TICK_SEQUENCE_EMPTY);
    }
    assert(88 * spacing <= 88 * 65535) by (nonlinear_arith)
        requires
            spacing <= 65535,
    ;
    let required: i32 = TICK_ARRAY_SIZE as i32 * spacing as i32;
    let mut index: usize = 0;
    while index < len - 1
        invariant
            len == arrays.arrays().len(),
            len >= 1,
            arrays.arrays()[0] is Some,
            index <= len - 1,
            required == array_width(spacing as int),
            spacing_check_fits(arrays.arrays(), spacing as int),
            forall|j: int| 0 <= j < index ==> #[trigger] spaced_pair(arrays.arrays(), spacing as int, j),
        decreases len - 1 - index,
    {
        let current = array_start(arrays.array(index));
        let next = array_start(arrays.array(index + 1));
        assert(array_start_of(arrays.arrays()[index + 1]) == next);
        if next != i32::MAX && next - current != required {
            proof {
                assert(!spaced_pair(arrays.arrays(), spacing as int, index as int));
            }
            return Err(TICK_ARRAY_NOT_EVENLY_SPACED);
        }
        index += 1;
    }
    Ok(())
}

/// Keeps `inverse` the inverse of `perm`, both permutations of `0..n`, and
/// `output` the input rearranged by `perm`.
spec fn tracks_permutation(
    input: Seq<Option<TickArrayFacade>>,
    output: Seq<Option<TickArrayFacade>>,
    perm: Seq<int>,
    inverse: Seq<int>,
) -> bool {
    &&& output.len() == input.len()
    &&& perm.len() == input.len()
    &&& inverse.len() == input.len()
    &&& forall|k: int| 0 <= k < input.len() ==> {
        &&& 0 <= #[trigger] perm[k] < input.len()
        &&& output[k] == input[perm[k]]
        &&& inverse[perm[k]] == k
    }
    &&& forall|a: int| 0 <= a < input.len() ==> 0 <= #[trigger] inverse[a] < input.len() && perm[inverse[a]] == a
}

/// While the element first at position `i` moves down to position `j`, every
/// position below `j` holds an element that started before `i`.
proof fn lemma_earlier_origin(
    input: Seq<Option<TickArrayFacade>>,
    output: Seq<Option<TickArrayFacade>>,
    perm: Seq<int>,
    inverse: Seq<int>,
    i: int,
    j: int,
    k: int,
)
    requires
        tracks_permutation(input, output, perm, inverse),
        0 <= k < j <= i < input.len(),
        perm[j] == i,
        forall|m: int| i < m < input.len() ==> #[trigger] perm[m] == m,
    ensures
        perm[k] < i,
{
    let origin = perm[k];
    if origin == i {
        assert(inverse[i] == k);
        assert(inverse[i] == j);
    } else if origin > i {
        assert(perm[origin] == origin);
        assert(inverse[origin] == origin);
    }
}

/// Sorts the slots by start index, stably, empty slots last.
fn sort_by_array_start<S: TickArrayStorage>(arrays: &mut S)
    ensures
        is_stable_sort(old(arrays).arrays(), final(arrays).arrays()),
{
    let n = arrays.len();
    let ghost input = arrays.arrays();
    let ghost mut perm: Seq<int> = Seq::new(n as nat, |k: int| k);
    let ghost mut inverse: Seq<int> = Seq::new(n as nat, |k: int| k);
    let mut i: usize = 0;
    while i < n
        invariant
            n == input.len(),
            input == old(arrays).arrays(),
            i <= n,
            tracks_permutation(input, arrays.arrays(), perm, inverse),
            forall|k: int, l: int| 0 <= k < l < i ==> ordered_before(input, #[trigger] perm[k], #[trigger] perm[l]),
            forall|k: int| i <= k < n ==> #[trigger] perm[k] == k,
        decreases n - i,
    {
        let mut j: usize = i;
        while j > 0 && array_start(arrays.array(j - 1)) > array_start(arrays.array(j))
            invariant
                n == input.len(),
                j <= i < n,
                tracks_permutation(input, arrays.arrays(), perm, inverse),
                perm[j as int] == i,
                forall|k: int| i < k < n ==> #[trigger] perm[k] == k,
                forall|k: int, l: int| 0 <= k < l <= i && k != j && l != j ==> ordered_before(input, #[trigger] perm[k], #[trigger] perm[l]),
                forall|l: int| j < l <= i ==> ordered_before(input, perm[j as int], #[trigger] perm[l]),
            decreases j,
        {
            let ghost moved = perm[j - 1];
            proof {
                lemma_earlier_origin(input, arrays.arrays(), perm, inverse, i as int, j as int, j - 1);
                assert(ordered_before(input, i as int, moved));
            }
            arrays.swap_arrays(j - 1, j);
            proof {
                let old_perm = perm;
                perm = old_perm.update(j - 1, i as int).update(j as int, moved);
                inverse = inverse.update(moved, j as int).update(i as int, j - 1);
                assert forall|k: int, l: int| 0 <= k < l <= i && k != j - 1 && l != j - 1 implies ordered_before(input, #[trigger] perm[k], #[trigger] perm[l]) by {
                    if k == j {
                        assert(ordered_before(input, old_perm[j - 1], old_perm[l]));
                    } else if l == j {
                        assert(ordered_before(input, old_perm[k], old_perm[j - 1]));
                    } else {
                        assert(ordered_before(input, old_perm[k], old_perm[l]));
                    }
                }
                assert forall|l: int| j - 1 < l <= i implies ordered_before(input, perm[j - 1], #[trigger] perm[l]) by {
                    if l > j {
                        assert(ordered_before(input, old_perm[j as int], old_perm[l]));
                    }
                }
            }
            j -= 1;
        }
        proof {
            if j > 0 {
                lemma_earlier_origin(input, arrays.arrays(), perm, inverse, i as int, j as int, j - 1);
                assert(ordered_before(input, perm[j - 1], i as int));
            }
            assert forall|k: int, l: int| 0 <= k < l < i + 1 implies ordered_before(input, #[trigger] perm[k], #[trigger] perm[l]) by {
                if l == j && k < j - 1 {
                    assert(ordered_before(input, perm[k], perm[j - 1]));
                }
            }
        }
        i += 1;
    }
    proof {
        assert forall|a: int| 0 <= a < n implies #[trigger] lists_position(perm, a) by {
            assert(perm[inverse[a]] == a);
        }
        assert(sorts_with(input, arrays.arrays(), perm));
    }
}

fn sequence_tick<'s, S: TickArrayStorage>(arrays: &'s S, spacing: u16, tick_index: i32) -> (r: Result<&'s TickFacade, CoreError>)
    requires
        tick_lookup_safe(arrays.arrays(), spacing as int, tick_index as int),
    ensures
        match r {
            Ok(tick) => tick_lookup(arrays.arrays(), spacing as int, tick_index as int) == Ok::<TickFacade, CoreError>(*tick),
            Err(e) => tick_lookup(arrays.arrays(), spacing as int, tick_index as int) == Err::<TickFacade, CoreError>(e),
        },
{
    let start = sequence_start_index(arrays);
    if tick_index < start {
        return Err(TICK_INDEX_OUT_OF_BOUNDS);
    }
    let end = sequence_end_index(arrays, spacing);
    if tick_index > end {
        return Err(TICK_INDEX_OUT_OF_BOUNDS);
    }
    let (_, remainder) = div_rem_floor(tick_index as i64, spacing as i64);
    if remainder != 0 {
        return Err(INVALID_TICK_INDEX);
    }
    let first = array_start(arrays.array(0));
    let width: u64 = TICK_ARRAY_SIZE as u64 * spacing as u64;
    let distance = (tick_index as i64 - first as i64) as u64;
    let array_index = distance / width;
    proof {
        assert(array_index <= distance) by (nonlinear_arith)
            requires
                array_index == distance / width,
                width > 0,
        ;
        assert(array_index == tick_slot(arrays.arrays(), spacing as int, tick_index as int));
    }
    match arrays.array(array_index as usize) {
        None => Err(TICK_INDEX_OUT_OF_BOUNDS),
        Some(array) => {
            let diff = tick_index as i64 - array.start_tick_index as i64;
            let offset: i64 = if diff >= 0 {
                let q = diff as u64 / spacing as u64;
                proof {
                    assert(q <= diff) by (nonlinear_arith)
                        requires
                            q == diff as u64 / spacing as u64,
                            spacing > 0,
                            diff >= 0,
                    ;
                }
                q as i64
            } else {
                let q = (-diff) as u64 / spacing as u64;
                proof {
                    assert(q <= -diff) by (nonlinear_arith)
                        requires
                            q == (-diff) as u64 / spacing as u64,
                            spacing > 0,
                            diff < 0,
                    ;
                }
                -(q as i64)
            };
            proof {
                assert(offset == tick_offset(*array, spacing as int, tick_index as int));
            }
            Ok(&array.ticks[offset as usize])
        },
    }
}

fn sequence_next_initialized_tick<'s, S: TickArrayStorage>(arrays: &'s S, spacing: u16, tick_index: i32) -> (r: Result<(Option<&'s TickFacade>, i32), CoreError>)
    requires
        next_search_safe(arrays.arrays(), spacing as int, tick_index as int),
    ensures
        next_search(arrays.arrays(), spacing as int, tick_index as int, search_value(r)),
{
    let ghost s = arrays.arrays();
    let ghost sp = spacing as int;
    let ghost t = tick_index as int;
    let end = sequence_end_index(arrays, spacing);
    if tick_index >= end {
        return Err(INVALID_TICK_ARRAY_SEQUENCE);
    }
    let mut next = tick_index;
    loop
        invariant
            s == arrays.arrays(),
            sp == spacing,
            t == tick_index,
            end == sequence_end(s, sp),
            end <= MAX_TICK_INDEX,
            tick_index < end,
            next_search_safe(s, sp, t),
            tick_index <= next <= end,
            floor_multiple(next as int, sp) >= i32::MIN,
            forall|d: int| #[trigger] above_candidate(s, sp, t, d) && d <= next ==> !halts_at(s, sp, d),
        decreases end - next,
    {
        let ghost before = next as int;
        proof {
            lemma_floor_multiple(before, sp);
        }
        next = get_next_initializable_tick_index(next, spacing);
        proof {
            lemma_floor_multiple(next as int, sp);
            assert((next as int) % sp == 0);
        }
        if next > end {
            proof {
                assert forall|d: int| #[trigger] above_candidate(s, sp, t, d) implies !halts_at(s, sp, d) by {
                    if d > before {
                        assert(d % sp == 0);
                    }
                }
            }
            return Ok((None, end));
        }
        proof {
            assert(above_candidate(s, sp, t, next as int));
            assert(clear_above_until(s, sp, t, next as int)) by {
                assert forall|d: int| #[trigger] above_candidate(s, sp, t, d) && d < next implies !halts_at(s, sp, d) by {
                    if d > before {
                        assert(d % sp == 0);
                    }
                }
            }
        }
        let tick = match sequence_tick(arrays, spacing, next) {
            Ok(tick) => tick,
            Err(e) => {
                proof {
                    assert(above_candidate(s, sp, t, next as int));
                }
                return Err(e);
            },
        };
        if tick.initialized {
            return Ok((Some(tick), next));
        }
        proof {
            assert forall|d: int| #[trigger] above_candidate(s, sp, t, d) && d <= next implies !halts_at(s, sp, d) by {
                if d > before && d < next {
                    assert(d % sp == 0);
                }
            }
        }
    }
}

fn sequence_prev_initialized_tick<'s, S: TickArrayStorage>(arrays: &'s S, spacing: u16, tick_index: i32) -> (r: Result<(Option<&'s TickFacade>, i32), CoreError>)
    requires
        prev_search_safe(arrays.arrays(), spacing as int, tick_index as int),
    ensures
        prev_search(arrays.arrays(), spacing as int, tick_index as int, search_value(r)),
{
    let ghost s = arrays.arrays();
    let ghost sp = spacing as int;
    let ghost t = tick_index as int;
    let start = sequence_start_index(arrays);
    if tick_index < start {
        return Err(INVALID_TICK_ARRAY_SEQUENCE);
    }
    proof {
        lemma_floor_multiple(t, sp);
    }
    let mut previous = get_initializable_tick_index(tick_index, spacing, Some(false));
    proof {
        assert forall|d: int| #[trigger] below_candidate(s, sp, t, d) && d > previous implies !halts_at(s, sp, d) by {
            assert(d % sp == 0);
        }
    }
    loop
        invariant
            s == arrays.arrays(),
            sp == spacing,
            sp > 0,
            t == tick_index,
            start == sequence_start(s),
            start >= MIN_TICK_INDEX,
            tick_index >= start,
            prev_search_safe(s, sp, t),
            (previous as int) % sp == 0,
            previous <= tick_index,
            previous >= start - sp,
            forall|d: int| #[trigger] below_candidate(s, sp, t, d) && d > previous ==> !halts_at(s, sp, d),
        decreases previous - start + sp,
    {
        if previous < start {
            return Ok((None, start));
        }
        proof {
            assert(below_candidate(s, sp, t, previous as int));
        }
        let tick = match sequence_tick(arrays, spacing, previous) {
            Ok(tick) => tick,
            Err(e) => {
                proof {
                    assert(below_candidate(s, sp, t, previous as int));
                }
                return Err(e);
            },
        };
        if tick.initialized {
            return Ok((Some(tick), previous));
        }
        let ghost before = previous as int;
        proof {
            lemma_floor_multiple(before - 1, sp);
            assert((before - sp) % sp == 0) by {
                vstd::arithmetic::div_mod::lemma_mod_sub_multiples_vanish(before, sp);
            }
        }
        previous = get_prev_initializable_tick_index(previous, spacing);
        proof {
            assert forall|d: int| #[trigger] below_candidate(s, sp, t, d) && d > previous implies !halts_at(s, sp, d) by {
                if d < before {
                    assert(d % sp == 0);
                    assert(d <= before - 1);
                }
            }
        }
    }
}

/// A sequence of tick arrays that owns them.
#[derive(Clone, Debug, PartialEq, Eq)]
pub struct TickArraySequence<const SIZE: usize> {
    pub tick_arrays: [Option<TickArrayFacade>; SIZE],
    pub tick_spacing: u16,
}

impl<const SIZE: usize> TickArraySequence<SIZE> {
    /// The slots of the sequence, by value.
    pub open spec fn arrays(&self) -> Seq<Option<TickArrayFacade>> {
        owned_arrays(self.tick_arrays)
    }

    /// Sorts the arrays by start index (stably, empty slots last) and accepts
    /// them as a sequence when the first slot holds an array and each array
    /// starts one array width after the one before it.
    pub fn new(tick_arrays: [Option<TickArrayFacade>; SIZE], tick_spacing: u16) -> (r: Result<Self, CoreError>)
        requires
            spacing_check_fits(stable_sorted(owned_arrays(tick_arrays)), tick_spacing as int),
        ensures
            is_stable_sort(owned_arrays(tick_arrays), stable_sorted(owned_arrays(tick_arrays))),
            match r {
                Ok(sequence) => {
                    &&& validation(stable_sorted(owned_arrays(tick_arrays)), tick_spacing as int) == Ok::<(), CoreError>(())
                    &&& sequence.arrays() == stable_sorted(owned_arrays(tick_arrays))
                    &&& sequence.tick_spacing == tick_spacing
                },
                Err(e) => validation(stable_sorted(owned_arrays(tick_arrays)), tick_spacing as int) == Err::<(), CoreError>(e),
            },
    {
        let mut sorted = tick_arrays;
        sort_by_array_start(&mut sorted);
        proof {
            lemma_stable_sorted_is_the_sort(owned_arrays(tick_arrays), owned_arrays(sorted));
        }
        match validate_sequence(&sorted, tick_spacing) {
            Ok(()) => Ok(Self { tick_arrays: sorted, tick_spacing }),
            Err(e) => Err(e),
        }
    }

    /// The lowest tick index the sequence covers.
    pub fn start_index(&self) -> (r: i32)
        ensures
            r == sequence_start(self.arrays()),
    {
        sequence_start_index(&self.tick_arrays)
    }

    /// The highest tick index the sequence covers.
    pub fn end_index(&self) -> (r: i32)
        requires
            end_fits(self.arrays(), self.tick_spacing as int),
        ensures
            r == sequence_end(self.arrays(), self.tick_spacing as int),
    {
        sequence_end_index(&self.tick_arrays, self.tick_spacing)
    }

    /// The tick at `tick_index`.
    pub fn tick(&self, tick_index: i32) -> (r: Result<&TickFacade, CoreError>)
        requires
            tick_lookup_safe(self.arrays(), self.tick_spacing as int, tick_index as int),
        ensures
            match r {
                Ok(tick) => tick_lookup(self.arrays(), self.tick_spacing as int, tick_index as int) == Ok::<TickFacade, CoreError>(*tick),
                Err(e) => tick_lookup(self.arrays(), self.tick_spacing as int, tick_index as int) == Err::<TickFacade, CoreError>(e),
            },
    {
        sequence_tick(&self.tick_arrays, self.tick_spacing, tick_index)
    }

    /// The first initialized tick above `tick_index` with its index, or no tick
    /// and the sequence's end when there is none.
    pub fn next_initialized_tick(&self, tick_index: i32) -> (r: Result<(Option<&TickFacade>, i32), CoreError>)
        requires
            next_search_safe(self.arrays(), self.tick_spacing as int, tick_index as int),
        ensures
            next_search(self.arrays(), self.tick_spacing as int, tick_index as int, search_value(r)),
    {
        sequence_next_initialized_tick(&self.tick_arrays, self.tick_spacing, tick_index)
    }

    /// The last initialized tick at or below `tick_index` with its index, or no
    /// tick and the sequence's start when there is none.
    pub fn prev_initialized_tick(&self, tick_index: i32) -> (r: Result<(Option<&TickFacade>, i32), CoreError>)
        requires
            prev_search_safe(self.arrays(), self.tick_spacing as int, tick_index as int),
        ensures
            prev_search(self.arrays(), self.tick_spacing as int, tick_index as int, search_value(r)),
    {
        sequence_prev_initialized_tick(&self.tick_arrays, self.tick_spacing, tick_index)
    }
}

/// A sequence of tick arrays that borrows them.
#[derive(Clone, Copy, Debug)]
pub struct BorrowedTickArraySequence<'a, const SIZE: usize> {
    pub tick_arrays: [Option<&'a TickArrayFacade>; SIZE],
    pub tick_spacing: u16,
}

impl<'a, const SIZE: usize> BorrowedTickArraySequence<'a, SIZE> {
    /// The slots of the sequence, with the borrowed arrays taken by value.
    pub open spec fn arrays(&self) -> Seq<Option<TickArrayFacade>> {
        borrowed_arrays(self.tick_arrays)
    }

    /// Sorts the arrays by start index (stably, empty slots last) and accepts
    /// them as a sequence when the first slot holds an array and each array
    /// starts one array width after the one before it.
    pub fn new(tick_arrays: [Option<&'a TickArrayFacade>; SIZE], tick_spacing: u16) -> (r: Result<Self, CoreError>)
        requires
            spacing_check_fits(stable_sorted(borrowed_arrays(tick_arrays)), tick_spacing as int),
        ensures
            is_stable_sort(borrowed_arrays(tick_arrays), stable_sorted(borrowed_arrays(tick_arrays))),
            match r {
                Ok(sequence) => {
                    &&& validation(stable_sorted(borrowed_arrays(tick_arrays)), tick_spacing as int) == Ok::<(), CoreError>(())
                    &&& sequence.arrays() == stable_sorted(borrowed_arrays(tick_arrays))
                    &&& sequence.tick_spacing == tick_spacing
                },
                Err(e) => validation(stable_sorted(borrowed_arrays(tick_arrays)), tick_spacing as int) == Err::<(), CoreError>(e),
            },
    {
        let mut sorted = tick_arrays;
        sort_by_array_start(&mut sorted);
        proof {
            lemma_stable_sorted_is_the_sort(borrowed_arrays(tick_arrays), borrowed_arrays(sorted));
        }
        match validate_sequence(&sorted, tick_spacing) {
            Ok(()) => Ok(Self { tick_arrays: sorted, tick_spacing }),
            Err(e) => Err(e),
        }
    }

    /// The lowest tick index the sequence covers.
    pub fn start_index(&self) -> (r: i32)
        ensures
            r == sequence_start(self.arrays()),
    {
        sequence_start_index(&self.tick_arrays)
    }

    /// The highest tick index the sequence covers.
    pub fn end_index(&self) -> (r: i32)
        requires
            end_fits(self.arrays(), self.tick_spacing as int),
        ensures
            r == sequence_end(self.arrays(), self.tick_spacing as int),
    {
        sequence_end_index(&self.tick_arrays, self.tick_spacing)
    }

    /// The tick at `tick_index`.
    pub fn tick(&self, tick_index: i32) -> (r: Result<&TickFacade, CoreError>)
        requires
            tick_lookup_safe(self.arrays(), self.tick_spacing as int, tick_index as int),
        ensures
            match r {
                Ok(tick) => tick_lookup(self.arrays(), self.tick_spacing as int, tick_index as int) == Ok::<TickFacade, CoreError>(*tick),
                Err(e) => tick_lookup(self.arrays(), self.tick_spacing as int, tick_index as int) == Err::<TickFacade, CoreError>(e),
            },
    {
        sequence_tick(&self.tick_arrays, self.tick_spacing, tick_index)
    }

    /// The first initialized tick above `tick_index` with its index, or no tick
    /// and the sequence's end when there is none.
    pub fn next_initialized_tick(&self, tick_index: i32) -> (r: Result<(Option<&TickFacade>, i32), CoreError>)
        requires
            next_search_safe(self.arrays(), self.tick_spacing as int, tick_index as int),
        ensures
            next_search(self.arrays(), self.tick_spacing as int, tick_index as int, search_value(r)),
    {
        sequence_next_initialized_tick(&self.tick_arrays, self.tick_spacing, tick_index)
    }

    /// The last initialized tick at or below `tick_index` with its index, or no
    /// tick and the sequence's start when there is none.
    pub fn prev_initialized_tick(&self, tick_index: i32) -> (r: Result<(Option<&TickFacade>, i32), CoreError>)
        requires
            prev_search_safe(self.arrays(), self.tick_spacing as int, tick_index as int),
        ensures
            prev_search(self.arrays(), self.tick_spacing as int, tick_index as int, search_value(r)),
    {
        sequence_prev_initialized_tick(&self.tick_arrays, self.tick_spacing, tick_index)
    }
}

} // verus!
