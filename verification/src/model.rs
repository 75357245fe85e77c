//! The mathematical model of a tick array sequence: where it starts and ends,
//! which tick a lookup finds, what the searches for an initialized tick return,
//! when a set of arrays is accepted, and what sorting them by start means.
use vstd::prelude::*;

use crate::constants::{MAX_TICK_INDEX, MIN_TICK_INDEX, TICK_ARRAY_SIZE};
use crate::error::CoreError;
use crate::types::{TickArrayFacade, TickFacade};

verus! {

/// The start index by which an array slot is ordered; an empty slot counts as
/// `i32::MAX`, past every real array.
pub open spec fn array_start_of(array: Option<TickArrayFacade>) -> int {
    match array {
        Some(a) => a.start_tick_index as int,
        None => i32::MAX as int,
    }
}

/// An optional borrowed tick array, taken by value.
pub open spec fn deref_array(array: Option<&TickArrayFacade>) -> Option<TickArrayFacade> {
    match array {
        Some(a) => Some(*a),
        None => None,
    }
}

/// The start of the first slot (`i32::MAX` when there is none or it is empty).
pub open spec fn first_array_start(arrays: Seq<Option<TickArrayFacade>>) -> int {
    if arrays.len() > 0 {
        array_start_of(arrays[0])
    } else {
        i32::MAX as int
    }
}

/// The lowest tick index of the sequence: the first array's start, but never
/// below `MIN_TICK_INDEX`.
pub open spec fn sequence_start(arrays: Seq<Option<TickArrayFacade>>) -> int {
    vstd::math::max(first_array_start(arrays), MIN_TICK_INDEX as int)
}

/// The start of the last array among the first `n` slots; `sequence_start` when
/// none of them holds an array.
pub open spec fn last_start_within(arrays: Seq<Option<TickArrayFacade>>, n: int) -> int
    decreases n,
{
    if n <= 0 {
        sequence_start(arrays)
    } else if array_start_of(arrays[n - 1]) != i32::MAX {
        array_start_of(arrays[n - 1])
    } else {
        last_start_within(arrays, n - 1)
    }
}

/// The start of the last array of the sequence.
pub open spec fn last_array_start(arrays: Seq<Option<TickArrayFacade>>) -> int {
    last_start_within(arrays, arrays.len() as int)
}

/// The number of tick indexes one tick array spans.
pub open spec fn array_width(spacing: int) -> int {
    TICK_ARRAY_SIZE * spacing
}

/// The sequence's end can be computed in `i32`.
pub open spec fn end_fits(arrays: Seq<Option<TickArrayFacade>>, spacing: int) -> bool {
    &&& i32::MIN <= last_array_start(arrays) + array_width(spacing) - 1
    &&& last_array_start(arrays) + array_width(spacing) <= i32::MAX
}

/// The highest tick index of the sequence: the last tick of the last array,
/// but never above `MAX_TICK_INDEX`.
pub open spec fn sequence_end(arrays: Seq<Option<TickArrayFacade>>, spacing: int) -> int {
    vstd::math::min(last_array_start(arrays) + array_width(spacing) - 1, MAX_TICK_INDEX as int)
}

/// Division rounding toward zero.
pub open spec fn trunc_div(a: int, b: int) -> int {
    if a >= 0 {
        a / b
    } else {
        -((-a) / b)
    }
}

/// The slot in which a lookup of `tick_index` looks: the number of whole array
/// widths between the first array's start and the index.
pub open spec fn tick_slot(arrays: Seq<Option<TickArrayFacade>>, spacing: int, tick_index: int) -> int {
    (tick_index - first_array_start(arrays)) / array_width(spacing)
}

/// The position of `tick_index` within `array`.
pub open spec fn tick_offset(array: TickArrayFacade, spacing: int, tick_index: int) -> int {
    trunc_div(tick_index - array.start_tick_index, spacing)
}

/// `tick_index` lies between the sequence's start and end.
pub open spec fn in_sequence(arrays: Seq<Option<TickArrayFacade>>, spacing: int, tick_index: int) -> bool {
    sequence_start(arrays) <= tick_index <= sequence_end(arrays, spacing)
}

/// What a lookup of `tick_index` gives.
pub open spec fn tick_lookup(arrays: Seq<Option<TickArrayFacade>>, spacing: int, tick_index: int) -> Result<TickFacade, CoreError> {
    if !in_sequence(arrays, spacing, tick_index) {
        Err(CoreError::TickIndexOutOfBounds)
    } else if tick_index % spacing != 0 {
        Err(CoreError::InvalidTickIndex)
    } else {
        let k = tick_slot(arrays, spacing, tick_index);
        if 0 <= k < arrays.len() && arrays[k] is Some {
            let array = arrays[k]->Some_0;
            Ok(array.ticks@[tick_offset(array, spacing, tick_index)])
        } else {
            Err(CoreError::TickIndexOutOfBounds)
        }
    }
}

/// A lookup of `tick_index` stays within `i32`, divides by a nonzero spacing and
/// indexes inside the array it picks.
pub open spec fn tick_lookup_safe(arrays: Seq<Option<TickArrayFacade>>, spacing: int, tick_index: int) -> bool {
    sequence_start(arrays) <= tick_index ==> {
        &&& end_fits(arrays, spacing)
        &&& tick_index <= sequence_end(arrays, spacing) ==> {
            &&& spacing > 0
            &&& tick_index % spacing == 0 ==> {
                &&& tick_index - first_array_start(arrays) <= i32::MAX
                &&& {
                    let k = tick_slot(arrays, spacing, tick_index);
                    0 <= k < arrays.len() && arrays[k] is Some ==> {
                        let array = arrays[k]->Some_0;
                        &&& i32::MIN <= tick_index - array.start_tick_index <= i32::MAX
                        &&& 0 <= tick_offset(array, spacing, tick_index) < TICK_ARRAY_SIZE
                    }
                }
            }
        }
    }
}

/// A search stops at `tick_index`: its lookup fails or finds an initialized tick.
pub open spec fn halts_at(arrays: Seq<Option<TickArrayFacade>>, spacing: int, tick_index: int) -> bool {
    match tick_lookup(arrays, spacing, tick_index) {
        Ok(tick) => tick.initialized,
        Err(_) => true,
    }
}

/// The value of a search result, with borrowed ticks taken by value.
pub open spec fn search_value(r: Result<(Option<&TickFacade>, i32), CoreError>) -> Result<(Option<TickFacade>, int), CoreError> {
    match r {
        Ok((Some(tick), index)) => Ok((Some(*tick), index as int)),
        Ok((None, index)) => Ok((None, index as int)),
        Err(e) => Err(e),
    }
}

/// `c` is an initializable tick that an upward search from `tick_index` visits.
pub open spec fn above_candidate(arrays: Seq<Option<TickArrayFacade>>, spacing: int, tick_index: int, c: int) -> bool {
    tick_index < c <= sequence_end(arrays, spacing) && c % spacing == 0
}

/// The upward search from `tick_index` does not stop before `c`.
pub open spec fn clear_above_until(arrays: Seq<Option<TickArrayFacade>>, spacing: int, tick_index: int, c: int) -> bool {
    forall|d: int| #[trigger] above_candidate(arrays, spacing, tick_index, d) && d < c ==> !halts_at(arrays, spacing, d)
}

/// What the upward search from `tick_index` returns: the first initializable
/// tick above it that is initialized (or the error of the first failing lookup),
/// and else no tick with the sequence's end.
pub open spec fn next_search(
    arrays: Seq<Option<TickArrayFacade>>,
    spacing: int,
    tick_index: int,
    r: Result<(Option<TickFacade>, int), CoreError>,
) -> bool {
    if tick_index >= sequence_end(arrays, spacing) {
        r == Err::<(Option<TickFacade>, int), CoreError>(CoreError::InvalidTickArraySequence)
    } else {
        match r {
            Ok((Some(tick), c)) => {
                &&& above_candidate(arrays, spacing, tick_index, c)
                &&& clear_above_until(arrays, spacing, tick_index, c)
                &&& tick_lookup(arrays, spacing, c) == Ok::<TickFacade, CoreError>(tick)
                &&& tick.initialized
            },
            Ok((None, c)) => {
                &&& c == sequence_end(arrays, spacing)
                &&& forall|d: int| #[trigger] above_candidate(arrays, spacing, tick_index, d) ==> !halts_at(arrays, spacing, d)
            },
            Err(e) => exists|c: int| {
                &&& #[trigger] above_candidate(arrays, spacing, tick_index, c)
                &&& clear_above_until(arrays, spacing, tick_index, c)
                &&& tick_lookup(arrays, spacing, c) == Err::<TickFacade, CoreError>(e)
            },
        }
    }
}

/// The upward search from `tick_index` stays within `i32` and every lookup it
/// makes is safe.
pub open spec fn next_search_safe(arrays: Seq<Option<TickArrayFacade>>, spacing: int, tick_index: int) -> bool {
    &&& end_fits(arrays, spacing)
    &&& tick_index < sequence_end(arrays, spacing) ==> {
        &&& spacing > 0
        &&& crate::tick::floor_multiple(tick_index, spacing) >= i32::MIN
        &&& forall|c: int| #[trigger] above_candidate(arrays, spacing, tick_index, c)
            && clear_above_until(arrays, spacing, tick_index, c) ==> tick_lookup_safe(arrays, spacing, c)
    }
}

/// `c` is an initializable tick that a downward search from `tick_index` visits.
pub open spec fn below_candidate(arrays: Seq<Option<TickArrayFacade>>, spacing: int, tick_index: int, c: int) -> bool {
    sequence_start(arrays) <= c <= tick_index && c % spacing == 0
}

/// The downward search from `tick_index` does not stop above `c`.
pub open spec fn clear_below_until(arrays: Seq<Option<TickArrayFacade>>, spacing: int, tick_index: int, c: int) -> bool {
    forall|d: int| #[trigger] below_candidate(arrays, spacing, tick_index, d) && d > c ==> !halts_at(arrays, spacing, d)
}

/// What the downward search from `tick_index` returns: the first initializable
/// tick at or below it that is initialized (or the error of the first failing
/// lookup), and else no tick with the sequence's start.
pub open spec fn prev_search(
    arrays: Seq<Option<TickArrayFacade>>,
    spacing: int,
    tick_index: int,
    r: Result<(Option<TickFacade>, int), CoreError>,
) -> bool {
    if tick_index < sequence_start(arrays) {
        r == Err::<(Option<TickFacade>, int), CoreError>(CoreError::InvalidTickArraySequence)
    } else {
        match r {
            Ok((Some(tick), c)) => {
                &&& below_candidate(arrays, spacing, tick_index, c)
                &&& clear_below_until(arrays, spacing, tick_index, c)
                &&& tick_lookup(arrays, spacing, c) == Ok::<TickFacade, CoreError>(tick)
                &&& tick.initialized
            },
            Ok((None, c)) => {
                &&& c == sequence_start(arrays)
                &&& forall|d: int| #[trigger] below_candidate(arrays, spacing, tick_index, d) ==> !halts_at(arrays, spacing, d)
            },
            Err(e) => exists|c: int| {
                &&& #[trigger] below_candidate(arrays, spacing, tick_index, c)
                &&& clear_below_until(arrays, spacing, tick_index, c)
                &&& tick_lookup(arrays, spacing, c) == Err::<TickFacade, CoreError>(e)
            },
        }
    }
}

/// The downward search from `tick_index` divides by a nonzero spacing and every
/// lookup it makes is safe.
pub open spec fn prev_search_safe(arrays: Seq<Option<TickArrayFacade>>, spacing: int, tick_index: int) -> bool {
    tick_index >= sequence_start(arrays) ==> {
        &&& spacing > 0
        &&& forall|c: int| #[trigger] below_candidate(arrays, spacing, tick_index, c)
            && clear_below_until(arrays, spacing, tick_index, c) ==> tick_lookup_safe(arrays, spacing, c)
    }
}

/// Slot `i + 1` is empty or starts exactly one array width after slot `i`.
pub open spec fn spaced_pair(arrays: Seq<Option<TickArrayFacade>>, spacing: int, i: int) -> bool {
    array_start_of(arrays[i + 1]) == i32::MAX
        || array_start_of(arrays[i + 1]) - array_start_of(arrays[i]) == array_width(spacing)
}

/// Every array follows the one before it by exactly one array width.
pub open spec fn evenly_spaced(arrays: Seq<Option<TickArrayFacade>>, spacing: int) -> bool {
    forall|i: int| 0 <= i < arrays.len() - 1 ==> #[trigger] spaced_pair(arrays, spacing, i)
}

/// Whether arrays, in this order, form a sequence.
pub open spec fn validation(arrays: Seq<Option<TickArrayFacade>>, spacing: int) -> Result<(), CoreError> {
    if arrays.len() == 0 || arrays[0] is None {
        Err(CoreError::TickSequenceEmpty)
    } else if !evenly_spaced(arrays, spacing) {
        Err(CoreError::TickArrayNotEvenlySpaced)
    } else {
        Ok(())
    }
}

/// Each distance that the spacing check takes, up to the first pair that fails
/// it, fits in `i32`.
pub open spec fn spacing_check_fits(arrays: Seq<Option<TickArrayFacade>>, spacing: int) -> bool {
    forall|i: int| 0 <= i < arrays.len() - 1
        && (forall|j: int| 0 <= j < i ==> #[trigger] spaced_pair(arrays, spacing, j))
        && array_start_of(#[trigger] arrays[i + 1]) != i32::MAX
        ==> i32::MIN <= array_start_of(arrays[i + 1]) - array_start_of(arrays[i]) <= i32::MAX
}

/// In a stable sort by start, the element first at position `a` comes before
/// the one at `b`.
pub open spec fn ordered_before(input: Seq<Option<TickArrayFacade>>, a: int, b: int) -> bool {
    ||| array_start_of(input[a]) < array_start_of(input[b])
    ||| array_start_of(input[a]) == array_start_of(input[b]) && a < b
}

/// `perm` lists each of `0..n` exactly once.
pub open spec fn is_permutation(perm: Seq<int>, n: int) -> bool {
    &&& perm.len() == n
    &&& forall|k: int| 0 <= k < n ==> 0 <= #[trigger] perm[k] < n
    &&& forall|j: int, k: int| 0 <= j < n && 0 <= k < n && j != k ==> #[trigger] perm[j] != #[trigger] perm[k]
    &&& forall|a: int| 0 <= a < n ==> #[trigger] lists_position(perm, a)
}

/// Some entry of `perm` is `a`.
pub open spec fn lists_position(perm: Seq<int>, a: int) -> bool {
    exists|k: int| 0 <= k < perm.len() && #[trigger] perm[k] == a
}

/// `output` is `input` rearranged by `perm` (`output[k] == input[perm[k]]`), and
/// `perm` lists every position once, in stable order of start.
pub open spec fn sorts_with(input: Seq<Option<TickArrayFacade>>, output: Seq<Option<TickArrayFacade>>, perm: Seq<int>) -> bool {
    &&& output.len() == input.len()
    &&& perm.len() == input.len()
    &&& forall|k: int| 0 <= k < input.len() ==> 0 <= #[trigger] perm[k] < input.len() && output[k] == input[perm[k]]
    &&& forall|a: int| 0 <= a < input.len() ==> #[trigger] lists_position(perm, a)
    &&& forall|k: int, l: int| 0 <= k < l < input.len() ==> ordered_before(input, #[trigger] perm[k], #[trigger] perm[l])
}

/// `output` is the stable sort of `input` by start index, empty slots last.
pub open spec fn is_stable_sort(input: Seq<Option<TickArrayFacade>>, output: Seq<Option<TickArrayFacade>>) -> bool {
    exists|perm: Seq<int>| sorts_with(input, output, perm)
}

/// A sequence ordered by start: starts never decrease and empty slots come last.
pub open spec fn sorted_by_start(arrays: Seq<Option<TickArrayFacade>>) -> bool {
    forall|k: int, l: int| 0 <= k < l < arrays.len() ==> array_start_of(#[trigger] arrays[k]) <= array_start_of(#[trigger] arrays[l])
}

/// The stable sort of `input` by start index.
pub open spec fn stable_sorted(input: Seq<Option<TickArrayFacade>>) -> Seq<Option<TickArrayFacade>> {
    choose|output: Seq<Option<TickArrayFacade>>| is_stable_sort(input, output)
}

/// Two rearrangements that both sort `input` stably agree on their first `k` positions.
proof fn lemma_sorting_perms_agree(
    input: Seq<Option<TickArrayFacade>>,
    out1: Seq<Option<TickArrayFacade>>,
    out2: Seq<Option<TickArrayFacade>>,
    p1: Seq<int>,
    p2: Seq<int>,
    k: int,
)
    requires
        sorts_with(input, out1, p1),
        sorts_with(input, out2, p2),
        0 <= k <= input.len(),
    ensures
        forall|m: int| 0 <= m < k ==> p1[m] == p2[m],
    decreases k,
{
    if k > 0 {
        lemma_sorting_perms_agree(input, out1, out2, p1, p2, k - 1);
        let n = input.len() as int;
        let m = k - 1;
        let a = p1[m];
        let b = p2[m];
        if a != b {
            assert(0 <= a < n && 0 <= b < n);
            assert(lists_position(p2, a));
            assert(lists_position(p1, b));
            let x = choose|x: int| 0 <= x < n && #[trigger] p2[x] == a;
            let y = choose|y: int| 0 <= y < n && #[trigger] p1[y] == b;
            if x < m {
                assert(p1[x] == p2[x]);
                assert(ordered_before(input, p1[x], p1[m]));
                assert(false);
            }
            assert(x != m);
            assert(ordered_before(input, p2[m], p2[x]));
            if y < m {
                assert(p1[y] == p2[y]);
                assert(ordered_before(input, p2[y], p2[m]));
                assert(false);
            }
            assert(y != m);
            assert(ordered_before(input, p1[m], p1[y]));
            assert(false);
        }
    }
}

/// Sorting by start index is stable, so its outcome is unique: two stable sorts
/// of the same arrays are equal.
pub proof fn lemma_stable_sort_unique(
    input: Seq<Option<TickArrayFacade>>,
    out1: Seq<Option<TickArrayFacade>>,
    out2: Seq<Option<TickArrayFacade>>,
)
    requires
        is_stable_sort(input, out1),
        is_stable_sort(input, out2),
    ensures
        out1 == out2,
{
    let p1 = choose|p: Seq<int>| sorts_with(input, out1, p);
    let p2 = choose|p: Seq<int>| sorts_with(input, out2, p);
    lemma_sorting_perms_agree(input, out1, out2, p1, p2, input.len() as int);
    assert forall|k: int| 0 <= k < out1.len() implies out1[k] == out2[k] by {
        assert(p1[k] == p2[k]);
    }
    assert(out1 =~= out2);
}

/// Any stable sort of `input` is `stable_sorted(input)`.
pub proof fn lemma_stable_sorted_is_the_sort(
    input: Seq<Option<TickArrayFacade>>,
    output: Seq<Option<TickArrayFacade>>,
)
    requires
        is_stable_sort(input, output),
    ensures
        is_stable_sort(input, stable_sorted(input)),
        output == stable_sorted(input),
{
    lemma_stable_sort_unique(input, output, stable_sorted(input));
}

/// Where the element first at position `x` goes among the stably sorted
/// positions `sorted`: after every element whose start is not above its own,
/// before every element whose start is.
proof fn lemma_insert_position(input: Seq<Option<TickArrayFacade>>, sorted: Seq<int>, x: int, i: int) -> (m: int)
    requires
        0 <= i <= sorted.len(),
        0 <= x < input.len(),
        forall|k: int| 0 <= k < sorted.len() ==> 0 <= #[trigger] sorted[k] < input.len(),
        forall|k: int, l: int| 0 <= k < l < sorted.len() ==> ordered_before(input, #[trigger] sorted[k], #[trigger] sorted[l]),
        forall|k: int| 0 <= k < i ==> array_start_of(input[#[trigger] sorted[k]]) <= array_start_of(input[x]),
    ensures
        i <= m <= sorted.len(),
        forall|k: int| 0 <= k < m ==> array_start_of(input[#[trigger] sorted[k]]) <= array_start_of(input[x]),
        forall|k: int| m <= k < sorted.len() ==> array_start_of(input[#[trigger] sorted[k]]) > array_start_of(input[x]),
    decreases sorted.len() - i,
{
    if i == sorted.len() {
        i
    } else if array_start_of(input[sorted[i]]) <= array_start_of(input[x]) {
        lemma_insert_position(input, sorted, x, i + 1)
    } else {
        assert forall|k: int| i <= k < sorted.len() implies array_start_of(input[#[trigger] sorted[k]]) > array_start_of(input[x]) by {
            if k > i {
                assert(ordered_before(input, sorted[i], sorted[k]));
            }
        }
        i
    }
}

/// The first `n` positions of `input`, listed in stable order of start.
proof fn lemma_sort_prefix(input: Seq<Option<TickArrayFacade>>, n: int) -> (perm: Seq<int>)
    requires
        0 <= n <= input.len(),
    ensures
        perm.len() == n,
        forall|k: int| 0 <= k < n ==> 0 <= #[trigger] perm[k] < n,
        forall|a: int| 0 <= a < n ==> #[trigger] lists_position(perm, a),
        forall|k: int, l: int| 0 <= k < l < n ==> ordered_before(input, #[trigger] perm[k], #[trigger] perm[l]),
    decreases n,
{
    if n == 0 {
        Seq::empty()
    } else {
        let prev = lemma_sort_prefix(input, n - 1);
        let x = n - 1;
        let m = lemma_insert_position(input, prev, x, 0);
        let perm = Seq::new(n as nat, |k: int| if k < m { prev[k] } else if k == m { x } else { prev[k - 1] });
        assert forall|k: int, l: int| 0 <= k < l < n implies ordered_before(input, #[trigger] perm[k], #[trigger] perm[l]) by {
            if l < m {
                assert(ordered_before(input, prev[k], prev[l]));
            } else if l == m {
                assert(array_start_of(input[prev[k]]) <= array_start_of(input[x]));
            } else if k < m {
                assert(ordered_before(input, prev[k], prev[l - 1]));
            } else if k == m {
                assert(array_start_of(input[prev[l - 1]]) > array_start_of(input[x]));
            } else {
                assert(ordered_before(input, prev[k - 1], prev[l - 1]));
            }
        }
        assert forall|a: int| 0 <= a < n implies #[trigger] lists_position(perm, a) by {
            if a == x {
                assert(perm[m] == a);
            } else {
                assert(lists_position(prev, a));
                let k0 = choose|k: int| 0 <= k < prev.len() && #[trigger] prev[k] == a;
                if k0 < m {
                    assert(perm[k0] == a);
                } else {
                    assert(perm[k0 + 1] == a);
                }
            }
        }
        perm
    }
}

/// Every row of slots has a stable sort by start index, so `stable_sorted`
/// gives one.
pub proof fn lemma_stable_sort_exists(input: Seq<Option<TickArrayFacade>>)
    ensures
        is_stable_sort(input, stable_sorted(input)),
{
    let n = input.len() as int;
    let perm = lemma_sort_prefix(input, n);
    let output = Seq::new(n as nat, |k: int| input[perm[k]]);
    assert(sorts_with(input, output, perm));
    assert(is_stable_sort(input, output));
}

} // verus!
