use orca_whirlpools_core::{
    get_initializable_tick_index, get_next_initializable_tick_index,
    get_prev_initializable_tick_index, get_tick_array_start_tick_index, BorrowedTickArraySequence,
    CoreError, TickArrayFacade, TickArraySequence, TickFacade, INVALID_TICK_ARRAY_SEQUENCE,
    MAX_TICK_INDEX, MIN_TICK_INDEX, TICK_ARRAY_NOT_EVENLY_SPACED, TICK_ARRAY_SIZE,
    TICK_INDEX_OUT_OF_BOUNDS, TICK_SEQUENCE_EMPTY,
};

fn marked_ticks(mark: i128) -> [TickFacade; TICK_ARRAY_SIZE] {
    let mut ticks = [TickFacade::default(); TICK_ARRAY_SIZE];
    for (index, tick) in ticks.iter_mut().enumerate() {
        tick.liquidity_net = mark + index as i128;
        tick.initialized = index % 5 == 0;
    }
    ticks
}

fn array(start_tick_index: i32, mark: i128) -> TickArrayFacade {
    TickArrayFacade {
        start_tick_index,
        ticks: marked_ticks(mark),
    }
}

#[test]
fn default_tick_is_empty() {
    let tick = TickFacade::default();
    assert!(!tick.initialized);
    assert_eq!(tick.liquidity_net, 0);
    assert_eq!(tick.liquidity_gross, 0);
    assert_eq!(tick.fee_growth_outside_a, 0);
    assert_eq!(tick.fee_growth_outside_b, 0);
    assert_eq!(tick.reward_growths_outside, [0, 0, 0]);
}

#[test]
fn error_messages() {
    assert_eq!(TICK_SEQUENCE_EMPTY.message(), "Tick sequence empty");
    assert_eq!(TICK_ARRAY_NOT_EVENLY_SPACED.message(), "Tick array not evenly spaced");
    assert_eq!(TICK_INDEX_OUT_OF_BOUNDS.message(), "Tick index out of bounds");
    assert_eq!(CoreError::InvalidTickIndex.message(), "Invalid tick index");
    assert_eq!(INVALID_TICK_ARRAY_SEQUENCE.message(), "Invalid tick array sequence");
}

#[test]
fn new_moves_a_later_array_into_the_first_slot() {
    let sequence = TickArraySequence::new([None, Some(array(0, 0))], 16).unwrap();
    assert_eq!(sequence.tick_arrays[0].map(|a| a.start_tick_index), Some(0));
    assert!(sequence.tick_arrays[1].is_none());
}

#[test]
fn new_refuses_no_arrays() {
    assert_eq!(TickArraySequence::<2>::new([None, None], 16).err(), Some(TICK_SEQUENCE_EMPTY));
    assert_eq!(TickArraySequence::<0>::new([], 16).err(), Some(TICK_SEQUENCE_EMPTY));
    assert_eq!(BorrowedTickArraySequence::<0>::new([], 16).err(), Some(TICK_SEQUENCE_EMPTY));
}

#[test]
fn new_refuses_gaps() {
    let result = TickArraySequence::new([Some(array(0, 0)), Some(array(2816, 0))], 16);
    assert_eq!(result.err(), Some(TICK_ARRAY_NOT_EVENLY_SPACED));
    let result = TickArraySequence::new([Some(array(0, 0)), Some(array(1400, 0))], 16);
    assert_eq!(result.err(), Some(TICK_ARRAY_NOT_EVENLY_SPACED));
}

#[test]
fn new_sorts_by_start_with_empty_slots_last() {
    let sequence = TickArraySequence::new(
        [None, Some(array(1408, 100)), None, Some(array(-1408, 200)), Some(array(0, 300))],
        16,
    )
    .unwrap();
    let starts: Vec<Option<i32>> = sequence
        .tick_arrays
        .iter()
        .map(|a| a.as_ref().map(|a| a.start_tick_index))
        .collect();
    assert_eq!(starts, vec![Some(-1408), Some(0), Some(1408), None, None]);
    assert_eq!(sequence.tick_arrays[0].unwrap().ticks[0].liquidity_net, 200);
    assert_eq!(sequence.tick_arrays[2].unwrap().ticks[0].liquidity_net, 100);
}

#[test]
fn new_sort_is_stable() {
    let first = array(0, 1);
    let second = array(0, 2);
    let sequence = TickArraySequence::new([Some(first), Some(second)], 0).unwrap();
    assert_eq!(sequence.tick_arrays, [Some(first), Some(second)]);
    let sequence = TickArraySequence::new([Some(second), Some(first)], 0).unwrap();
    assert_eq!(sequence.tick_arrays, [Some(second), Some(first)]);
}

#[test]
fn borrowed_new_sorts_like_owned() {
    let a = array(2816, 1);
    let b = array(0, 2);
    let c = array(1408, 3);
    let sequence = BorrowedTickArraySequence::new([Some(&a), None, Some(&b), Some(&c)], 16).unwrap();
    assert_eq!(sequence.tick_arrays, [Some(&b), Some(&c), Some(&a), None]);
    assert_eq!(sequence.start_index(), 0);
    assert_eq!(sequence.end_index(), 4223);
    assert_eq!(sequence.tick(1424).map(|t| t.liquidity_net), Ok(4));
}

#[test]
fn start_and_end_are_clamped() {
    let low = get_tick_array_start_tick_index(MIN_TICK_INDEX, 16);
    let sequence = TickArraySequence::new([Some(array(low, 0))], 16).unwrap();
    assert_eq!(low, -444928);
    assert_eq!(sequence.start_index(), MIN_TICK_INDEX);
    assert_eq!(sequence.end_index(), low + 1407);
    let high = get_tick_array_start_tick_index(MAX_TICK_INDEX, 16);
    let sequence = TickArraySequence::new([Some(array(high, 0))], 16).unwrap();
    assert_eq!(high, 443520);
    assert_eq!(sequence.start_index(), high);
    assert_eq!(sequence.end_index(), MAX_TICK_INDEX);
}

#[test]
fn lookup_finds_tick_in_spanning_array() {
    let sequence = TickArraySequence::new([Some(array(0, 1000)), Some(array(1408, 2000))], 16).unwrap();
    assert_eq!(sequence.tick(1408 + 16 * 7).map(|t| t.liquidity_net), Ok(2007));
    assert_eq!(sequence.tick(16 * 87).map(|t| t.liquidity_net), Ok(1087));
    assert_eq!(sequence.tick(2816).err(), Some(TICK_INDEX_OUT_OF_BOUNDS));
}

#[test]
fn next_found_again_by_prev() {
    let sequence = TickArraySequence::new([Some(array(0, 0)), Some(array(1408, 0))], 16).unwrap();
    let (tick, index) = sequence.next_initialized_tick(1).unwrap();
    assert_eq!(index, 80);
    assert_eq!(sequence.prev_initialized_tick(index), Ok((tick, index)));
    let (tick, index) = sequence.prev_initialized_tick(1500).unwrap();
    assert_eq!(index, 1488);
    assert_eq!(sequence.next_initialized_tick(index - 1), Ok((tick, index)));
}

#[test]
fn next_search_below_start_fails_on_lookup() {
    let sequence = TickArraySequence::new([Some(array(0, 0))], 16).unwrap();
    assert_eq!(sequence.next_initialized_tick(-100), Err(TICK_INDEX_OUT_OF_BOUNDS));
    assert_eq!(sequence.next_initialized_tick(-1).map(|r| r.1), Ok(0));
}

#[test]
fn prev_search_above_end_fails_on_lookup() {
    let sequence = TickArraySequence::new([Some(array(0, 0))], 16).unwrap();
    assert_eq!(sequence.prev_initialized_tick(5000), Err(TICK_INDEX_OUT_OF_BOUNDS));
}

#[test]
fn tick_index_rounding() {
    assert_eq!(get_initializable_tick_index(-1, 16, Some(false)), -16);
    assert_eq!(get_initializable_tick_index(-1, 16, Some(true)), 0);
    assert_eq!(get_initializable_tick_index(32, 16, Some(true)), 32);
    assert_eq!(get_initializable_tick_index(8, 16, None), 16);
    assert_eq!(get_initializable_tick_index(7, 16, None), 0);
    assert_eq!(get_next_initializable_tick_index(0, 16), 16);
    assert_eq!(get_next_initializable_tick_index(-17, 16), -16);
    assert_eq!(get_next_initializable_tick_index(-16, 16), 0);
    assert_eq!(get_prev_initializable_tick_index(0, 16), -16);
    assert_eq!(get_prev_initializable_tick_index(-1, 16), -16);
    assert_eq!(get_prev_initializable_tick_index(17, 16), 16);
    assert_eq!(get_tick_array_start_tick_index(-1, 16), -1408);
    assert_eq!(get_tick_array_start_tick_index(1408, 16), 1408);
    assert_eq!(get_tick_array_start_tick_index(1407, 16), 0);
    assert_eq!(get_tick_array_start_tick_index(MAX_TICK_INDEX, 1), 443608);
}

#[test]
fn new_ignores_input_order() {
    let a = array(-1408, 1);
    let b = array(0, 2);
    let c = array(1408, 3);
    let expected = TickArraySequence::new([Some(a), Some(b), Some(c), None], 16).unwrap();
    let orders = [
        [Some(c), None, Some(a), Some(b)],
        [None, Some(b), Some(c), Some(a)],
        [Some(b), Some(a), None, Some(c)],
    ];
    for arrays in orders {
        assert_eq!(TickArraySequence::new(arrays, 16), Ok(expected.clone()));
    }
    let gap = array(4224, 4);
    let refused = [[Some(a), Some(gap), Some(b)], [Some(gap), Some(b), Some(a)]];
    for arrays in refused {
        assert_eq!(TickArraySequence::new(arrays, 16).err(), Some(TICK_ARRAY_NOT_EVENLY_SPACED));
    }
}

#[test]
fn accepted_sequence_shape_and_span() {
    let sequence = TickArraySequence::new(
        [None, Some(array(1408, 0)), Some(array(0, 0)), None, Some(array(2816, 0))],
        16,
    )
    .unwrap();
    let count = sequence.tick_arrays.iter().take_while(|a| a.is_some()).count();
    assert_eq!(count, 3);
    assert!(sequence.tick_arrays[count..].iter().all(|a| a.is_none()));
    for i in 0..count - 1 {
        assert_eq!(
            sequence.tick_arrays[i + 1].unwrap().start_tick_index,
            sequence.tick_arrays[i].unwrap().start_tick_index + 1408
        );
    }
    let start = sequence.start_index();
    let end = sequence.end_index();
    assert!(MIN_TICK_INDEX <= start && start <= end && end <= MAX_TICK_INDEX);
    assert_eq!(end - start, 3 * 1408 - 1);
}

#[test]
fn borrowed_searches_match_owned_everywhere() {
    let arrays = [Some(array(-1408, 7)), Some(array(0, 9)), None];
    let refs = [arrays[0].as_ref(), arrays[1].as_ref(), None];
    let owned = TickArraySequence::new(arrays, 16).unwrap();
    let borrowed = BorrowedTickArraySequence::new(refs, 16).unwrap();
    for t in -1500..1500 {
        assert_eq!(owned.tick(t), borrowed.tick(t));
        assert_eq!(owned.next_initialized_tick(t), borrowed.next_initialized_tick(t));
        assert_eq!(owned.prev_initialized_tick(t), borrowed.prev_initialized_tick(t));
    }
}
