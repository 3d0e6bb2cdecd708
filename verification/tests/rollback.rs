use bevy_book::rollback::{Input, InputBuffer, RollbackManager, StateBuffer};

#[derive(Clone, Debug, PartialEq)]
struct Snapshot {
    tick: u64,
}

#[test]
fn state_buffer_stores_and_retrieves() {
    let mut buffer = StateBuffer::new(10);

    for tick in 0..5u64 {
        buffer.push(tick, Snapshot { tick });
    }

    assert_eq!(buffer.len(), 5);
    assert_eq!(buffer.oldest_tick(), Some(0));
    assert_eq!(buffer.newest_tick(), Some(4));

    let state = buffer.get(2);
    assert!(state.is_some());
    assert_eq!(state.unwrap().tick, 2);
}

#[test]
fn state_buffer_evicts_oldest() {
    let mut buffer = StateBuffer::new(3);

    for tick in 0..5u64 {
        buffer.push(tick, Snapshot { tick });
    }

    assert_eq!(buffer.len(), 3);
    assert_eq!(buffer.oldest_tick(), Some(2), "Should evict ticks 0 and 1");
    assert_eq!(buffer.newest_tick(), Some(4));
}

#[test]
fn input_buffer_stores_inputs() {
    let mut buf = InputBuffer::new(10);
    buf.add_input(0, Input::from_bits(true, false, false, false, false));
    buf.add_input(1, Input::from_bits(false, true, false, false, false));

    let input0 = buf.get_input(0);
    assert!(input0.left);
    assert!(!input0.right);

    let input1 = buf.get_input(1);
    assert!(!input1.left);
    assert!(input1.right);
}

#[test]
fn input_buffer_missing_tick_returns_default() {
    let buf = InputBuffer::new(10);
    let input = buf.get_input(999);
    assert_eq!(input, Input::empty());
}

#[test]
fn input_buffer_has_confirmed() {
    let mut buf = InputBuffer::new(10);
    buf.add_input(5, Input::empty());

    assert!(buf.has_confirmed(5));
    assert!(!buf.has_confirmed(6));
}

#[test]
fn rollback_manager_saves_and_restores() {
    let mut manager = RollbackManager::new(10);

    let state = Snapshot { tick: 5 };
    manager.save_state(state.tick, state.clone());

    let restored = manager.rollback_to(5);
    assert!(restored.is_some());
    assert_eq!(restored.unwrap().tick, 5);
}

#[test]
fn rollback_too_far_returns_none() {
    let manager: RollbackManager<Snapshot> = RollbackManager::new(5);

    let result = manager.rollback_to(0);
    assert!(result.is_none());
}

#[test]
fn rollback_window_refuses_ticks_before_floor() {
    let mut manager = RollbackManager::new(3);
    for tick in 0..3u64 {
        manager.save_state(tick, Snapshot { tick });
    }
    manager.confirmed_tick = 5;
    // The floor is 5 - 3 = 2: tick 1 is too far back even though it is kept.
    assert!(manager.rollback_to(1).is_none());
    assert_eq!(manager.rollback_to(2).unwrap().tick, 2);
}

#[test]
fn rollback_manager_advance_moves_one_tick() {
    let mut manager: RollbackManager<Snapshot> = RollbackManager::new(4);
    manager.advance();
    manager.advance();
    assert_eq!(manager.current_tick, 2);
    assert_eq!(manager.confirmed_tick, 0);
}

#[test]
fn input_buffer_keeps_a_bounded_window() {
    let mut buf = InputBuffer::new(2);
    buf.add_input(0, Input::from_bits(true, false, false, false, false));
    buf.add_input(1, Input::from_bits(false, true, false, false, false));
    buf.add_input(2, Input::from_bits(false, false, true, false, false));
    buf.add_input(3, Input::from_bits(false, false, false, true, false));
    // Only the most recent entries survive; tick 0 has been dropped.
    assert!(!buf.has_confirmed(0));
    assert!(buf.has_confirmed(3));
    assert!(buf.get_input(3).down);
}

#[test]
fn input_default_is_empty() {
    assert_eq!(Input::default(), Input::empty());
}
