use bevy_book::ai::{decide_state, execute_bt, AIContext, AIState, BTNode, BTStatus, HealthBand};

fn band(health: f32) -> HealthBand {
    if health <= 0.0 {
        HealthBand::Depleted
    } else if health < 0.2 {
        HealthBand::Critical
    } else if health < 0.3 {
        HealthBand::Low
    } else if health < 0.5 {
        HealthBand::Moderate
    } else if health > 0.5 {
        HealthBand::High
    } else {
        HealthBand::Half
    }
}

fn ctx(health: f32, _dist: f32, see: bool, attack_range: bool) -> AIContext {
    AIContext { health: band(health), can_see_target: see, target_in_attack_range: attack_range }
}

#[test]
fn idle_to_chasing_on_see_target() {
    let c = ctx(1.0, 10.0, true, false);
    let next = decide_state(AIState::Idle, &c);
    assert_eq!(next, AIState::Chasing);
}

#[test]
fn chasing_to_attacking_in_range() {
    let c = ctx(1.0, 1.0, true, true);
    let next = decide_state(AIState::Chasing, &c);
    assert_eq!(next, AIState::Attacking);
}

#[test]
fn flee_when_low_health() {
    let c = ctx(0.15, 5.0, true, false);
    let next = decide_state(AIState::Chasing, &c);
    assert_eq!(next, AIState::Fleeing);
}

#[test]
fn dead_is_terminal() {
    let c = ctx(0.0, 0.0, false, false);
    let next = decide_state(AIState::Dead, &c);
    assert_eq!(next, AIState::Dead);
}

#[test]
fn dead_when_health_zero() {
    let c = ctx(0.0, 10.0, true, false);
    let next = decide_state(AIState::Chasing, &c);
    assert_eq!(next, AIState::Dead);
}

#[test]
fn idle_flees_when_weak_and_seen() {
    let c = ctx(0.25, 10.0, true, false);
    assert_eq!(decide_state(AIState::Idle, &c), AIState::Fleeing);
    assert_eq!(decide_state(AIState::Patrolling, &c), AIState::Fleeing);
    let unseen = ctx(0.25, 10.0, false, false);
    assert_eq!(decide_state(AIState::Idle, &unseen), AIState::Patrolling);
}

#[test]
fn fleeing_stays_at_half_health() {
    let c = ctx(0.5, 10.0, false, false);
    assert_eq!(decide_state(AIState::Fleeing, &c), AIState::Fleeing);
}

#[test]
fn bt_action_attack_in_range() {
    let c = ctx(1.0, 1.0, true, true);
    let node = BTNode::Action("attack".to_string());
    assert_eq!(execute_bt(&node, &c), BTStatus::Success);
}

#[test]
fn bt_action_attack_out_of_range() {
    let c = ctx(1.0, 5.0, true, false);
    let node = BTNode::Action("attack".to_string());
    assert_eq!(execute_bt(&node, &c), BTStatus::Failure);
}

#[test]
fn bt_sequence_all_succeed() {
    let c = ctx(1.0, 1.0, true, true);
    let tree = BTNode::Sequence(vec![
        BTNode::Action("chase".to_string()),
        BTNode::Action("attack".to_string()),
    ]);
    assert_eq!(execute_bt(&tree, &c), BTStatus::Running);
}

#[test]
fn bt_selector_finds_first_success() {
    let c = ctx(1.0, 1.0, true, true);
    let tree = BTNode::Selector(vec![
        BTNode::Action("flee".to_string()),
        BTNode::Action("attack".to_string()),
    ]);
    assert_eq!(execute_bt(&tree, &c), BTStatus::Success);
}

#[test]
fn bt_empty_composites_and_unknown_actions() {
    let c = ctx(1.0, 1.0, true, true);
    assert_eq!(execute_bt(&BTNode::Sequence(vec![]), &c), BTStatus::Success);
    assert_eq!(execute_bt(&BTNode::Selector(vec![]), &c), BTStatus::Failure);
    assert_eq!(execute_bt(&BTNode::Action("dance".to_string()), &c), BTStatus::Failure);
    assert_eq!(execute_bt(&BTNode::Action("patrol".to_string()), &c), BTStatus::Running);
    let weak = ctx(0.1, 1.0, false, false);
    assert_eq!(execute_bt(&BTNode::Action("flee".to_string()), &weak), BTStatus::Running);
    assert_eq!(execute_bt(&BTNode::Action("chase".to_string()), &weak), BTStatus::Failure);
}

#[test]
fn recover_from_fleeing_when_healed() {
    let c = ctx(0.7, 10.0, false, false);
    let next = decide_state(AIState::Fleeing, &c);
    assert_eq!(next, AIState::Idle);
}

#[test]
fn lose_target_returns_to_idle() {
    let c = ctx(1.0, 100.0, false, false);
    let next = decide_state(AIState::Chasing, &c);
    assert_eq!(next, AIState::Idle);
}

#[test]
fn bt_clone_runs_the_same() {
    let tree = BTNode::Selector(vec![
        BTNode::Sequence(vec![BTNode::Action("chase".to_string()), BTNode::Action("attack".to_string())]),
        BTNode::Action("patrol".to_string()),
    ]);
    let copy = tree.clone();
    let c = ctx_for_clone();
    assert_eq!(execute_bt(&copy, &c), execute_bt(&tree, &c));
}

fn ctx_for_clone() -> AIContext {
    AIContext {
        health: HealthBand::High,
        can_see_target: true,
        target_in_attack_range: false,
    }
}
