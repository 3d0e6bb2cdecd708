//! Game AI: a finite state machine for enemies and a behaviour-tree evaluator.
//!
//! The decisions read the entity's health only through the thresholds the rules
//! compare it with, so the health is given as the band it falls in.
use vstd::prelude::*;
use crate::text::str_eq;

verus! {

/// The states of an enemy.
#[derive(Clone, Copy, Debug, PartialEq, Eq, Hash, Structural)]
pub enum AIState {
    Idle,
    Patrolling,
    Chasing,
    Attacking,
    Fleeing,
    Dead,
}

/// Where a health fraction lies among the thresholds the rules use.
#[derive(Clone, Copy, Debug, PartialEq, Eq, Hash, Structural)]
pub enum HealthBand {
    /// At most 0.
    Depleted,
    /// Above 0 and below 0.2.
    Critical,
    /// From 0.2 up to, not including, 0.3.
    Low,
    /// From 0.3 up to, not including, 0.5.
    Moderate,
    /// Exactly 0.5, or a fraction that compares with no threshold.
    Half,
    /// Above 0.5.
    High,
}

impl HealthBand {
    /// Health at most 0.
    pub open spec fn depleted(self) -> bool {
        self is Depleted
    }

    /// Health below 0.2.
    pub open spec fn below_fifth(self) -> bool {
        self is Depleted || self is Critical
    }

    /// Health below 0.3.
    pub open spec fn below_three_tenths(self) -> bool {
        self is Depleted || self is Critical || self is Low
    }

    /// Health below 0.5.
    pub open spec fn below_half(self) -> bool {
        self is Depleted || self is Critical || self is Low || self is Moderate
    }

    /// Health above 0.5.
    pub open spec fn above_half(self) -> bool {
        self is High
    }
}

/// What an enemy perceives when it decides.
#[derive(Clone, Copy, Debug, PartialEq, Eq, Structural)]
pub struct AIContext {
    pub health: HealthBand,
    pub can_see_target: bool,
    pub target_in_attack_range: bool,
}

/// The state that follows `current` given what the enemy perceives.
pub open spec fn next_state(current: AIState, ctx: AIContext) -> AIState {
    let h = ctx.health;
    if h.depleted() {
        AIState::Dead
    } else {
        match current {
            AIState::Dead => AIState::Dead,
            AIState::Idle | AIState::Patrolling => {
                if ctx.can_see_target && h.below_three_tenths() {
                    AIState::Fleeing
                } else if ctx.can_see_target {
                    AIState::Chasing
                } else {
                    AIState::Patrolling
                }
            },
            AIState::Chasing => {
                if h.below_fifth() {
                    AIState::Fleeing
                } else if ctx.target_in_attack_range {
                    AIState::Attacking
                } else if !ctx.can_see_target {
                    AIState::Idle
                } else {
                    AIState::Chasing
                }
            },
            AIState::Attacking => {
                if h.below_fifth() {
                    AIState::Fleeing
                } else if !ctx.target_in_attack_range {
                    AIState::Chasing
                } else {
                    AIState::Attacking
                }
            },
            AIState::Fleeing => {
                if h.above_half() {
                    AIState::Idle
                } else {
                    AIState::Fleeing
                }
            },
        }
    }
}

fn is_depleted(h: HealthBand) -> (r: bool)
    ensures
        r == h.depleted(),
{
    match h {
        HealthBand::Depleted => true,
        _ => false,
    }
}

fn is_below_fifth(h: HealthBand) -> (r: bool)
    ensures
        r == h.below_fifth(),
{
    match h {
        HealthBand::Depleted | HealthBand::Critical => true,
        _ => false,
    }
}

fn is_below_three_tenths(h: HealthBand) -> (r: bool)
    ensures
        r == h.below_three_tenths(),
{
    match h {
        HealthBand::Depleted | HealthBand::Critical | HealthBand::Low => true,
        _ => false,
    }
}

fn is_below_half(h: HealthBand) -> (r: bool)
    ensures
        r == h.below_half(),
{
    match h {
        HealthBand::Depleted | HealthBand::Critical | HealthBand::Low | HealthBand::Moderate => true,
        _ => false,
    }
}

fn is_above_half(h: HealthBand) -> (r: bool)
    ensures
        r == h.above_half(),
{
    match h {
        HealthBand::High => true,
        _ => false,
    }
}

/// The finite state machine: the state after `current`.
pub fn decide_state(current: AIState, ctx: &AIContext) -> (r: AIState)
    ensures
        r == next_state(current, *ctx),
{
    if is_depleted(ctx.health) {
        return AIState::Dead;
    }
    match current {
        AIState::Dead => AIState::Dead,
        AIState::Idle => {
            if ctx.can_see_target && is_below_three_tenths(ctx.health) {
                AIState::Fleeing
            } else if ctx.can_see_target {
                AIState::Chasing
            } else {
                AIState::Patrolling
            }
        },
        AIState::Patrolling => {
            if ctx.can_see_target && is_below_three_tenths(ctx.health) {
                AIState::Fleeing
            } else if ctx.can_see_target {
                AIState::Chasing
            } else {
                AIState::Patrolling
            }
        },
        AIState::Chasing => {
            if is_below_fifth(ctx.health) {
                AIState::Fleeing
            } else if ctx.target_in_attack_range {
                AIState::Attacking
            } else if !ctx.can_see_target {
                AIState::Idle
            } else {
                AIState::Chasing
            }
        },
        AIState::Attacking => {
            if is_below_fifth(ctx.health) {
                AIState::Fleeing
            } else if !ctx.target_in_attack_range {
                AIState::Chasing
            } else {
                AIState::Attacking
            }
        },
        AIState::Fleeing => {
            if is_above_half(ctx.health) {
                AIState::Idle
            } else {
                AIState::Fleeing
            }
        },
    }
}

/// Once dead, always dead; and no health at all means dead, whatever the state.
pub proof fn lemma_dead_is_terminal(current: AIState, ctx: AIContext)
    ensures
        current is Dead ==> next_state(current, ctx) is Dead,
        ctx.health.depleted() ==> next_state(current, ctx) is Dead,
        next_state(current, ctx) is Dead ==> current is Dead || ctx.health.depleted(),
{
}

/// An enemy attacks only a target in attack range; an attacking enemy with at
/// least a fifth of its health whose target has left attack range goes back to
/// chasing it.
pub proof fn lemma_attack_needs_range(current: AIState, ctx: AIContext)
    ensures
        next_state(current, ctx) is Attacking ==> ctx.target_in_attack_range,
        current is Attacking && !ctx.health.below_fifth() && !ctx.target_in_attack_range
            ==> next_state(current, ctx) is Chasing,
        current is Attacking && !ctx.health.below_fifth() && ctx.target_in_attack_range
            ==> next_state(current, ctx) is Attacking,
{
}

// ---------------------------------------------------------------------------
// Behaviour trees
// ---------------------------------------------------------------------------

/// A behaviour tree: named leaf actions, sequences and selectors.
#[derive(Debug)]
pub enum BTNode {
    Action(String),
    Sequence(Vec<BTNode>),
    Selector(Vec<BTNode>),
}

/// `a` and `b` are the same tree: the same kinds of node, with the same action
/// names and the same children in the same order.
pub open spec fn same_tree(a: BTNode, b: BTNode) -> bool
    decreases a,
{
    match a {
        BTNode::Action(x) => b is Action && x@ == b->Action_0@,
        BTNode::Sequence(xs) => b is Sequence && same_nodes(xs@, b->Sequence_0@),
        BTNode::Selector(xs) => b is Selector && same_nodes(xs@, b->Selector_0@),
    }
}

/// The two lists of nodes hold the same trees, in order.
pub open spec fn same_nodes(xs: Seq<BTNode>, ys: Seq<BTNode>) -> bool
    decreases xs,
{
    xs.len() == ys.len() && forall|i: int| 0 <= i < xs.len() ==> same_tree(#[trigger] xs[i], ys[i])
}

/// Copies of the nodes of `v`, in order.
fn clone_nodes(v: &Vec<BTNode>) -> (r: Vec<BTNode>)
    ensures
        same_nodes(r@, v@),
    decreases v,
{
    let mut r: Vec<BTNode> = Vec::new();
    let mut i: usize = 0;
    while i < v.len()
        invariant
            i <= v.len(),
            r@.len() == i,
            forall|j: int| 0 <= j < i ==> same_tree(#[trigger] r@[j], v@[j]),
        decreases v.len() - i,
    {
        assert(decreases_to!(v => v[i as int]));
        let c = v[i].clone();
        r.push(c);
        i += 1;
    }
    r
}

impl Clone for BTNode {
    fn clone(&self) -> (r: Self)
        ensures
            same_tree(r, *self),
        decreases self,
    {
        match self {
            BTNode::Action(name) => BTNode::Action(name.clone()),
            BTNode::Sequence(children) => BTNode::Sequence(clone_nodes(children)),
            BTNode::Selector(children) => BTNode::Selector(clone_nodes(children)),
        }
    }
}

/// The result of running a node.
#[derive(Clone, Copy, Debug, PartialEq, Eq, Structural)]
pub enum BTStatus {
    Success,
    Failure,
    Running,
}

/// What the leaf action called `name` reports.
pub open spec fn action_status(name: Seq<char>, ctx: AIContext) -> BTStatus {
    if name == "attack"@ {
        if ctx.target_in_attack_range {
            BTStatus::Success
        } else {
            BTStatus::Failure
        }
    } else if name == "chase"@ {
        if ctx.can_see_target {
            BTStatus::Running
        } else {
            BTStatus::Failure
        }
    } else if name == "flee"@ {
        if ctx.health.below_half() {
            BTStatus::Running
        } else {
            BTStatus::Success
        }
    } else if name == "patrol"@ {
        BTStatus::Running
    } else {
        BTStatus::Failure
    }
}

/// The result of running `node`: a sequence gives the first result of its
/// children that is not a success, or success; a selector gives the first
/// that is not a failure, or failure.
pub open spec fn bt_status(node: BTNode, ctx: AIContext) -> BTStatus
    decreases node,
{
    match node {
        BTNode::Action(name) => action_status(name@, ctx),
        BTNode::Sequence(children) => sequence_status(children@, ctx),
        BTNode::Selector(children) => selector_status(children@, ctx),
    }
}

pub open spec fn sequence_status(children: Seq<BTNode>, ctx: AIContext) -> BTStatus
    decreases children,
{
    if children.len() == 0 {
        BTStatus::Success
    } else {
        let first = bt_status(children[0], ctx);
        if first is Success {
            sequence_status(children.drop_first(), ctx)
        } else {
            first
        }
    }
}

pub open spec fn selector_status(children: Seq<BTNode>, ctx: AIContext) -> BTStatus
    decreases children,
{
    if children.len() == 0 {
        BTStatus::Failure
    } else {
        let first = bt_status(children[0], ctx);
        if first is Failure {
            selector_status(children.drop_first(), ctx)
        } else {
            first
        }
    }
}

fn run_action(name: &str, ctx: &AIContext) -> (r: BTStatus)
    ensures
        r == action_status(name@, *ctx),
{
    if str_eq(name, "attack") {
        if ctx.target_in_attack_range {
            BTStatus::Success
        } else {
            BTStatus::Failure
        }
    } else if str_eq(name, "chase") {
        if ctx.can_see_target {
            BTStatus::Running
        } else {
            BTStatus::Failure
        }
    } else if str_eq(name, "flee") {
        if is_below_half(ctx.health) {
            BTStatus::Running
        } else {
            BTStatus::Success
        }
    } else if str_eq(name, "patrol") {
        BTStatus::Running
    } else {
        BTStatus::Failure
    }
}

/// A sequence succeeds when all of its children succeed (so an empty one
/// succeeds); otherwise it gives the result of its first child that does not
/// succeed.
pub proof fn lemma_sequence_law(cs: Seq<BTNode>, ctx: AIContext, k: int)
    ensures
        (forall|i: int| 0 <= i < cs.len() ==> (#[trigger] bt_status(cs[i], ctx)) is Success)
            ==> sequence_status(cs, ctx) is Success,
        0 <= k < cs.len() && !(bt_status(cs[k], ctx) is Success) && (forall|i: int|
            0 <= i < k ==> (#[trigger] bt_status(cs[i], ctx)) is Success) ==> sequence_status(
            cs,
            ctx,
        ) == bt_status(cs[k], ctx),
    decreases cs.len(),
{
    if cs.len() > 0 {
        let rest = cs.drop_first();
        lemma_sequence_law(rest, ctx, k - 1);
        if forall|i: int| 0 <= i < cs.len() ==> (#[trigger] bt_status(cs[i], ctx)) is Success {
            assert(bt_status(cs[0], ctx) is Success);
            assert forall|i: int| 0 <= i < rest.len() implies (#[trigger] bt_status(rest[i], ctx)) is Success by {
                assert(rest[i] == cs[i + 1]);
                assert(bt_status(cs[i + 1], ctx) is Success);
            }
        }
        if 0 <= k < cs.len() && !(bt_status(cs[k], ctx) is Success) && (forall|i: int|
            0 <= i < k ==> (#[trigger] bt_status(cs[i], ctx)) is Success) {
            if k > 0 {
                assert(bt_status(cs[0], ctx) is Success);
                assert(rest[k - 1] == cs[k]);
                assert forall|i: int| 0 <= i < k - 1 implies (#[trigger] bt_status(rest[i], ctx)) is Success by {
                    assert(rest[i] == cs[i + 1]);
                    assert(bt_status(cs[i + 1], ctx) is Success);
                }
            }
        }
    }
}

/// A selector fails when all of its children fail (so an empty one fails);
/// otherwise it gives the result of its first child that does not fail.
pub proof fn lemma_selector_law(cs: Seq<BTNode>, ctx: AIContext, k: int)
    ensures
        (forall|i: int| 0 <= i < cs.len() ==> (#[trigger] bt_status(cs[i], ctx)) is Failure)
            ==> selector_status(cs, ctx) is Failure,
        0 <= k < cs.len() && !(bt_status(cs[k], ctx) is Failure) && (forall|i: int|
            0 <= i < k ==> (#[trigger] bt_status(cs[i], ctx)) is Failure) ==> selector_status(
            cs,
            ctx,
        ) == bt_status(cs[k], ctx),
    decreases cs.len(),
{
    if cs.len() > 0 {
        let rest = cs.drop_first();
        lemma_selector_law(rest, ctx, k - 1);
        if forall|i: int| 0 <= i < cs.len() ==> (#[trigger] bt_status(cs[i], ctx)) is Failure {
            assert(bt_status(cs[0], ctx) is Failure);
            assert forall|i: int| 0 <= i < rest.len() implies (#[trigger] bt_status(rest[i], ctx)) is Failure by {
                assert(rest[i] == cs[i + 1]);
                assert(bt_status(cs[i + 1], ctx) is Failure);
            }
        }
        if 0 <= k < cs.len() && !(bt_status(cs[k], ctx) is Failure) && (forall|i: int|
            0 <= i < k ==> (#[trigger] bt_status(cs[i], ctx)) is Failure) {
            if k > 0 {
                assert(bt_status(cs[0], ctx) is Failure);
                assert(rest[k - 1] == cs[k]);
                assert forall|i: int| 0 <= i < k - 1 implies (#[trigger] bt_status(rest[i], ctx)) is Failure by {
                    assert(rest[i] == cs[i + 1]);
                    assert(bt_status(cs[i + 1], ctx) is Failure);
                }
            }
        }
    }
}

/// The same tree gives the same result.
pub proof fn lemma_same_tree_status(a: BTNode, b: BTNode, ctx: AIContext)
    requires
        same_tree(a, b),
    ensures
        bt_status(a, ctx) == bt_status(b, ctx),
    decreases a, 1nat,
{
    match a {
        BTNode::Action(_) => {},
        BTNode::Sequence(xs) => {
            lemma_same_nodes_status(xs@, b->Sequence_0@, ctx);
        },
        BTNode::Selector(xs) => {
            lemma_same_nodes_status(xs@, b->Selector_0@, ctx);
        },
    }
}

/// The same lists of trees give the same sequence and selector results.
proof fn lemma_same_nodes_status(xs: Seq<BTNode>, ys: Seq<BTNode>, ctx: AIContext)
    requires
        same_nodes(xs, ys),
    ensures
        sequence_status(xs, ctx) == sequence_status(ys, ctx),
        selector_status(xs, ctx) == selector_status(ys, ctx),
    decreases xs, 0nat,
{
    if xs.len() > 0 {
        lemma_same_tree_status(xs[0], ys[0], ctx);
        assert forall|i: int| 0 <= i < xs.drop_first().len() implies same_tree(
            #[trigger] xs.drop_first()[i],
            ys.drop_first()[i],
        ) by {
            assert(same_tree(xs[i + 1], ys[i + 1]));
        }
        lemma_same_nodes_status(xs.drop_first(), ys.drop_first(), ctx);
    }
}

/// Runs the behaviour tree once.
pub fn execute_bt(node: &BTNode, ctx: &AIContext) -> (r: BTStatus)
    ensures
        r == bt_status(*node, *ctx),
    decreases node,
{
    match node {
        BTNode::Action(name) => run_action(name.as_str(), ctx),
        BTNode::Sequence(children) => {
            let mut i: usize = 0;
            assert(children@.subrange(0, children@.len() as int) =~= children@);
            while i < children.len()
                invariant
                    i <= children.len(),
                    *node == BTNode::Sequence(*children),
                    bt_status(*node, *ctx) == sequence_status(
                        children@.subrange(i as int, children@.len() as int),
                        *ctx,
                    ),
                decreases children.len() - i,
            {
                let ghost rest = children@.subrange(i as int, children@.len() as int);
                assert(rest[0] == children@[i as int]);
                assert(rest.drop_first() =~= children@.subrange(i + 1, children@.len() as int));
                proof {
                    assert(decreases_to!(*node => *children));
                    assert(decreases_to!(*children => children@));
                    assert(decreases_to!(children@ => children@[i as int]));
                }
                let s = execute_bt(&children[i], ctx);
                match s {
                    BTStatus::Success => {},
                    _ => {
                        return s;
                    },
                }
                i += 1;
            }
            BTStatus::Success
        },
        BTNode::Selector(children) => {
            let mut i: usize = 0;
            assert(children@.subrange(0, children@.len() as int) =~= children@);
            while i < children.len()
                invariant
                    i <= children.len(),
                    *node == BTNode::Selector(*children),
                    bt_status(*node, *ctx) == selector_status(
                        children@.subrange(i as int, children@.len() as int),
                        *ctx,
                    ),
                decreases children.len() - i,
            {
                let ghost rest = children@.subrange(i as int, children@.len() as int);
                assert(rest[0] == children@[i as int]);
                assert(rest.drop_first() =~= children@.subrange(i + 1, children@.len() as int));
                proof {
                    assert(decreases_to!(*node => *children));
                    assert(decreases_to!(*children => children@));
                    assert(decreases_to!(children@ => children@[i as int]));
                }
                let s = execute_bt(&children[i], ctx);
                match s {
                    BTStatus::Failure => {},
                    _ => {
                        return s;
                    },
                }
                i += 1;
            }
            BTStatus::Failure
        },
    }
}

} // verus!
