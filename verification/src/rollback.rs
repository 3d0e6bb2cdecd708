//! Rollback netcode: per-frame inputs, a bounded buffer of inputs by tick, a
//! bounded buffer of state snapshots by tick, and the manager that decides how
//! far back a rollback may go.
use vstd::prelude::*;
use std::collections::VecDeque;

verus! {

broadcast use vstd::std_specs::vecdeque::group_vec_dequeue_axioms;

/// One frame's input from a player.
#[derive(Clone, Copy, Debug, PartialEq, Eq, Structural)]
pub struct Input {
    pub left: bool,
    pub right: bool,
    pub up: bool,
    pub down: bool,
    pub action: bool,
}

/// No button held.
pub open spec fn no_input() -> Input {
    Input { left: false, right: false, up: false, down: false, action: false }
}

impl Default for Input {
    fn default() -> (i: Self)
        ensures
            i == no_input(),
    {
        Input { left: false, right: false, up: false, down: false, action: false }
    }
}

impl Input {
    /// No button held.
    pub fn empty() -> (i: Self)
        ensures
            i == no_input(),
    {
        Input { left: false, right: false, up: false, down: false, action: false }
    }

    pub fn from_bits(left: bool, right: bool, up: bool, down: bool, action: bool) -> (i: Self)
        ensures
            i == (Input { left, right, up, down, action }),
    {
        Self { left, right, up, down, action }
    }
}

/// `i` is the first position of an entry for tick `t`.
pub open spec fn first_for_tick<A>(s: Seq<(u64, A)>, t: u64, i: int) -> bool {
    0 <= i < s.len() && s[i].0 == t && forall|j: int| 0 <= j < i ==> (#[trigger] s[j]).0 != t
}

/// The last `m` entries of `s` (all of them when there are fewer).
pub open spec fn last_entries<A>(s: Seq<A>, m: nat) -> Seq<A> {
    if s.len() > m {
        s.skip(s.len() - m)
    } else {
        s
    }
}

fn find_tick<A>(q: &VecDeque<(u64, A)>, tick: u64) -> (r: Option<usize>)
    ensures
        match r {
            Some(i) => first_for_tick(q@, tick, i as int),
            None => forall|i: int| 0 <= i < q@.len() ==> (#[trigger] q@[i]).0 != tick,
        },
{
    let mut i: usize = 0;
    while i < q.len()
        invariant
            i <= q@.len(),
            forall|j: int| 0 <= j < i ==> (#[trigger] q@[j]).0 != tick,
        decreases q@.len() - i,
    {
        if q[i].0 == tick {
            return Some(i);
        }
        i += 1;
    }
    None
}

/// The inputs of the most recent ticks, at most `max_delay` of them.
pub struct InputBuffer {
    inputs: VecDeque<(u64, Input)>,
    max_delay: usize,
}

impl InputBuffer {
    /// The inputs kept, oldest first.
    pub closed spec fn entries(&self) -> Seq<(u64, Input)> {
        self.inputs@
    }

    /// How many inputs are kept at most.
    pub closed spec fn capacity(&self) -> usize {
        self.max_delay
    }

    pub fn new(max_delay: usize) -> (b: Self)
        ensures
            b.entries().len() == 0,
            b.capacity() == max_delay,
    {
        InputBuffer { inputs: VecDeque::with_capacity(max_delay), max_delay }
    }

    /// Adds the input of `tick` and drops the oldest beyond the capacity.
    pub fn add_input(&mut self, tick: u64, input: Input)
        ensures
            final(self).entries() == last_entries(
                old(self).entries().push((tick, input)),
                old(self).capacity() as nat,
            ),
            final(self).capacity() == old(self).capacity(),
    {
        let ghost all = self.inputs@.push((tick, input));
        self.inputs.push_back((tick, input));
        while self.inputs.len() > self.max_delay
            invariant
                self.max_delay == old(self).max_delay,
                all == old(self).inputs@.push((tick, input)),
                self.inputs@ == all.skip(all.len() - self.inputs@.len()),
                self.inputs@.len() <= all.len(),
                self.inputs@.len() >= self.max_delay || self.inputs@.len() == all.len(),
            decreases self.inputs@.len(),
        {
            let ghost before = self.inputs@;
            self.inputs.pop_front();
            assert(before.subrange(1, before.len() as int) =~= all.skip(
                all.len() - self.inputs@.len(),
            ));
        }
        assert(all.skip(0) =~= all);
        assert(self.inputs@ =~= last_entries(all, self.max_delay as nat));
    }

    /// The input of `tick`, the oldest kept if several; no input when none is
    /// kept for that tick.
    pub fn get_input(&self, tick: u64) -> (i: Input)
        ensures
            (exists|k: int| first_for_tick(self.entries(), tick, k) && i == self.entries()[k].1)
                || ((forall|k: int|
                0 <= k < self.entries().len() ==> (#[trigger] self.entries()[k]).0 != tick) && i
                == no_input()),
    {
        match find_tick(&self.inputs, tick) {
            Some(k) => self.inputs[k].1,
            None => Input::default(),
        }
    }

    /// Whether an input is kept for `tick`.
    pub fn has_confirmed(&self, tick: u64) -> (r: bool)
        ensures
            r == exists|k: int| 0 <= k < self.entries().len() && (#[trigger] self.entries()[k]).0 == tick,
    {
        match find_tick(&self.inputs, tick) {
            Some(k) => {
                assert(self.entries()[k as int].0 == tick);
                true
            },
            None => false,
        }
    }
}

/// The most snapshots a buffer of capacity `max` holds: `max`, and one when
/// `max` is 0 (the newest is always kept).
pub open spec fn bound(max: nat) -> nat {
    if max == 0 {
        1
    } else {
        max
    }
}

/// The entries after `push`: the oldest is dropped first when the buffer
/// already holds `max` or more.
pub open spec fn pushed_bounded<A>(s: Seq<A>, max: nat, x: A) -> Seq<A> {
    if s.len() >= max && s.len() > 0 {
        s.drop_first().push(x)
    } else {
        s.push(x)
    }
}

/// Snapshots of recent ticks, oldest first; `S` is the game's state type.
pub struct StateBuffer<S> {
    states: VecDeque<(u64, S)>,
    max_size: usize,
}

impl<S> StateBuffer<S> {
    /// The snapshots kept, oldest first.
    pub closed spec fn entries(&self) -> Seq<(u64, S)> {
        self.states@
    }

    /// How many snapshots are kept at most, once it has been reached.
    pub closed spec fn capacity(&self) -> usize {
        self.max_size
    }

    pub fn new(max_size: usize) -> (b: Self)
        ensures
            b.entries().len() == 0,
            b.capacity() == max_size,
    {
        StateBuffer { states: VecDeque::with_capacity(max_size), max_size }
    }

    /// Adds the snapshot of `tick`, first dropping the oldest when full.
    pub fn push(&mut self, tick: u64, state: S)
        ensures
            final(self).entries() == pushed_bounded(
                old(self).entries(),
                old(self).capacity() as nat,
                (tick, state),
            ),
            final(self).capacity() == old(self).capacity(),
            old(self).entries().len() <= bound(old(self).capacity() as nat)
                ==> final(self).entries().len() <= bound(old(self).capacity() as nat),
    {
        let ghost s0 = self.states@;
        if self.states.len() >= self.max_size {
            self.states.pop_front();
        }
        self.states.push_back((tick, state));
        assert(s0.len() > 0 ==> s0.subrange(1, s0.len() as int) =~= s0.drop_first());
    }

    /// The snapshot of `tick`, the oldest kept if several.
    pub fn get(&self, tick: u64) -> (r: Option<&S>)
        ensures
            match r {
                Some(s) => exists|k: int| first_for_tick(self.entries(), tick, k) && *s == self.entries()[k].1,
                None => forall|k: int| 0 <= k < self.entries().len() ==> (#[trigger] self.entries()[k]).0 != tick,
            },
    {
        match find_tick(&self.states, tick) {
            Some(k) => {
                assert(first_for_tick(self.entries(), tick, k as int));
                Some(&self.states[k].1)
            },
            None => None,
        }
    }

    pub fn oldest_tick(&self) -> (r: Option<u64>)
        ensures
            match r {
                Some(t) => self.entries().len() > 0 && t == self.entries()[0].0,
                None => self.entries().len() == 0,
            },
    {
        if self.states.len() == 0 {
            None
        } else {
            Some(self.states[0].0)
        }
    }

    pub fn newest_tick(&self) -> (r: Option<u64>)
        ensures
            match r {
                Some(t) => self.entries().len() > 0 && t == self.entries().last().0,
                None => self.entries().len() == 0,
            },
    {
        let n = self.states.len();
        if n == 0 {
            None
        } else {
            Some(self.states[n - 1].0)
        }
    }

    pub fn len(&self) -> (n: usize)
        ensures
            n == self.entries().len(),
    {
        self.states.len()
    }
}

/// Saves snapshots and decides how far back the game may roll.
pub struct RollbackManager<S> {
    pub current_tick: u64,
    pub state_buffer: StateBuffer<S>,
    pub confirmed_tick: u64,
    pub max_rollback: usize,
}

/// The oldest tick a rollback may reach: `max_rollback` ticks before the
/// confirmed one, or tick 0.
pub open spec fn rollback_floor(confirmed_tick: u64, max_rollback: usize) -> int {
    if confirmed_tick >= max_rollback {
        confirmed_tick - max_rollback
    } else {
        0
    }
}

impl<S> RollbackManager<S> {
    pub fn new(max_rollback: usize) -> (m: Self)
        ensures
            m.current_tick == 0,
            m.confirmed_tick == 0,
            m.max_rollback == max_rollback,
            m.state_buffer.entries().len() == 0,
            m.state_buffer.capacity() == max_rollback,
    {
        RollbackManager {
            current_tick: 0,
            state_buffer: StateBuffer::new(max_rollback),
            confirmed_tick: 0,
            max_rollback,
        }
    }

    /// Saves the snapshot of `tick`.
    pub fn save_state(&mut self, tick: u64, snapshot: S)
        ensures
            final(self).state_buffer.entries() == pushed_bounded(
                old(self).state_buffer.entries(),
                old(self).state_buffer.capacity() as nat,
                (tick, snapshot),
            ),
            final(self).state_buffer.capacity() == old(self).state_buffer.capacity(),
            final(self).current_tick == old(self).current_tick,
            final(self).confirmed_tick == old(self).confirmed_tick,
            final(self).max_rollback == old(self).max_rollback,
    {
        self.state_buffer.push(tick, snapshot);
    }

    /// The snapshot to restore for `tick`: none when `tick` is further back
    /// than the rollback window allows or no snapshot of it is kept.
    pub fn rollback_to(&self, tick: u64) -> (r: Option<&S>)
        ensures
            tick < rollback_floor(self.confirmed_tick, self.max_rollback) ==> r is None,
            tick >= rollback_floor(self.confirmed_tick, self.max_rollback) ==> match r {
                Some(s) => exists|k: int|
                    first_for_tick(self.state_buffer.entries(), tick, k) && *s
                        == self.state_buffer.entries()[k].1,
                None => forall|k: int|
                    0 <= k < self.state_buffer.entries().len() ==> (
                    #[trigger] self.state_buffer.entries()[k]).0 != tick,
            },
    {
        let window = self.max_rollback as u64;
        let floor = if self.confirmed_tick >= window {
            self.confirmed_tick - window
        } else {
            0
        };
        if tick < floor {
            return None;
        }
        self.state_buffer.get(tick)
    }

    /// Moves the simulation one tick forward.
    pub fn advance(&mut self)
        requires
            old(self).current_tick < u64::MAX,
        ensures
            final(self).current_tick == old(self).current_tick + 1,
            final(self).confirmed_tick == old(self).confirmed_tick,
            final(self).max_rollback == old(self).max_rollback,
            final(self).state_buffer.entries() == old(self).state_buffer.entries(),
    {
        self.current_tick += 1;
    }
}

} // verus!
