use bevy_book::health::{
    apply_damage, apply_damage_floored, cap_health, clamp_health, entity_can_transition, halve,
    heal, is_dead, test_health_values, EntityState,
};

#[test]
fn halve_matches_table() {
    for (input, expected) in test_health_values() {
        assert_eq!(halve(input), expected, "halve({}) should be {}", input, expected);
    }
    assert_eq!(halve(-11), -5);
}

#[test]
fn heal_clamps_to_max() {
    assert_eq!(heal(90, 20, 100), 100);
    assert_eq!(heal(50, 20, 100), 70);
}

#[test]
fn damage_and_death() {
    assert_eq!(apply_damage(10, 25), -15);
    assert_eq!(apply_damage_floored(10, 25), 0);
    assert_eq!(apply_damage_floored(30, 25), 5);
    assert!(is_dead(0));
    assert!(is_dead(-3));
    assert!(!is_dead(1));
}

#[test]
fn caps_and_clamps() {
    assert_eq!(cap_health(150, 100), 100);
    assert_eq!(cap_health(40, 100), 40);
    assert_eq!(clamp_health(150, 100), 100);
    assert_eq!(clamp_health(-5, 100), 0);
    assert_eq!(clamp_health(5, -1), 0);
    assert_eq!(clamp_health(42, 100), 42);
}

#[test]
fn entity_transitions() {
    assert!(entity_can_transition(EntityState::Idle, EntityState::Moving));
    assert!(entity_can_transition(EntityState::Stunned, EntityState::Dead));
    assert!(!entity_can_transition(EntityState::Dead, EntityState::Idle));
    assert!(!entity_can_transition(EntityState::Stunned, EntityState::Attacking));
    assert!(entity_can_transition(EntityState::Attacking, EntityState::Idle));
}
