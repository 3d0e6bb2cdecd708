use bevy_book::game_design::{pool_slot, PoolSlot};

#[test]
fn pool_reuses_first_dead() {
    assert_eq!(pool_slot(&vec![true, false, false], 3), PoolSlot::Reuse(1));
}

#[test]
fn pool_appends_when_all_alive_and_room() {
    assert_eq!(pool_slot(&vec![true, true], 3), PoolSlot::Append);
    assert_eq!(pool_slot(&vec![], 1), PoolSlot::Append);
}

#[test]
fn pool_full_when_all_alive_at_max() {
    assert_eq!(pool_slot(&vec![true, true, true], 3), PoolSlot::Full);
    assert_eq!(pool_slot(&vec![], 0), PoolSlot::Full);
}
