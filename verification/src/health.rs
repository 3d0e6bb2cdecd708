//! The health rules that the game's systems, hooks and observers apply.
use vstd::prelude::*;

verus! {

/// Health capped at its maximum, as the insertion hook leaves it.
pub fn cap_health(current: u32, max: u32) -> (h: u32)
    ensures
        h == if current <= max {
            current
        } else {
            max
        },
{
    if current <= max {
        current
    } else {
        max
    }
}

/// Health brought into `0..=max` (or to 0 when `max` is negative), as the
/// insertion hook of the design rules leaves it.
pub fn clamp_health(current: i32, max: i32) -> (h: i32)
    ensures
        h == if current > max {
            if max < 0 {
                0
            } else {
                max
            }
        } else if current < 0 {
            0
        } else {
            current
        },
{
    let mut h = current;
    if h > max {
        h = max;
    }
    if h < 0 {
        h = 0;
    }
    h
}

/// Health after taking `amount` damage.
pub fn apply_damage(current: i32, amount: i32) -> (h: i32)
    requires
        i32::MIN <= current - amount <= i32::MAX,
    ensures
        h == current - amount,
{
    current - amount
}

/// Health after taking `amount` damage, never below 0.
pub fn apply_damage_floored(current: i32, amount: i32) -> (h: i32)
    requires
        i32::MIN <= current - amount <= i32::MAX,
    ensures
        h == if current - amount < 0 {
            0
        } else {
            current - amount
        },
{
    let h = current - amount;
    if h < 0 {
        0
    } else {
        h
    }
}

/// An entity with this health is dead.
pub fn is_dead(current: i32) -> (r: bool)
    ensures
        r == (current <= 0),
{
    current <= 0
}

/// Half the health, rounded toward zero.
pub fn halve(current: i32) -> (h: i32)
    ensures
        h == if current >= 0 {
            current / 2
        } else {
            -((-current) / 2)
        },
{
    if current >= 0 {
        current / 2
    } else {
        let m: i64 = -(current as i64);
        -((m / 2) as i32)
    }
}

/// Health after healing by `amount`, capped at `max`.
pub fn heal(current: i32, amount: i32, max: i32) -> (h: i32)
    requires
        i32::MIN <= current + amount <= i32::MAX,
    ensures
        h == if current + amount <= max {
            current + amount
        } else {
            max as int
        },
{
    let h = current + amount;
    if h <= max {
        h
    } else {
        max
    }
}

/// Pairs of a health and its half, for tests of `halve`.
pub fn test_health_values() -> (v: Vec<(i32, i32)>)
    ensures
        v@ == seq![(0i32, 0i32), (50i32, 25i32), (51i32, 25i32), (100i32, 50i32), (-10i32, -5i32)],
{
    let mut v = Vec::new();
    v.push((0, 0));
    v.push((50, 25));
    v.push((51, 25));
    v.push((100, 50));
    v.push((-10, -5));
    assert(v@ =~= seq![(0i32, 0i32), (50i32, 25i32), (51i32, 25i32), (100i32, 50i32), (-10i32, -5i32)]);
    v
}

/// The states of an entity's own state machine.
#[derive(Clone, Copy, Debug, PartialEq, Eq, Structural)]
pub enum EntityState {
    Idle,
    Moving,
    Attacking,
    Stunned,
    Dead,
}

/// An entity may go from `from` to `to`: never out of `Dead`, always into it,
/// and never from `Stunned` to `Attacking`.
pub open spec fn may_transition(from: EntityState, to: EntityState) -> bool {
    if from is Dead {
        false
    } else if to is Dead {
        true
    } else {
        !(from is Stunned && to is Attacking)
    }
}

/// Whether an entity may go from `from` to `to`.
pub fn entity_can_transition(from: EntityState, to: EntityState) -> (r: bool)
    ensures
        r == may_transition(from, to),
{
    match (from, to) {
        (EntityState::Dead, _) => false,
        (_, EntityState::Dead) => true,
        (EntityState::Stunned, EntityState::Attacking) => false,
        _ => true,
    }
}

} // verus!
