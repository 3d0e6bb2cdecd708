//! Game design helpers: where an object pool puts the next object.
use vstd::prelude::*;

verus! {

/// Where a pool puts a new object.
#[derive(Clone, Copy, Debug, PartialEq, Eq, Structural)]
pub enum PoolSlot {
    /// Reuse the dead object at this index.
    Reuse(usize),
    /// Every object is alive and there is room: add one at the end.
    Append,
    /// Every object is alive and the pool is full: drop the request.
    Full,
}

/// Chooses the slot for a new object of a pool whose objects are alive or
/// dead as `alive` says: the first dead one, else a new one while the pool
/// holds fewer than `max_size`.
pub fn pool_slot(alive: &Vec<bool>, max_size: usize) -> (s: PoolSlot)
    ensures
        match s {
            PoolSlot::Reuse(i) => i < alive.len() && !alive@[i as int] && forall|j: int|
                0 <= j < i ==> #[trigger] alive@[j],
            PoolSlot::Append => (forall|j: int| 0 <= j < alive.len() ==> #[trigger] alive@[j])
                && alive.len() < max_size,
            PoolSlot::Full => (forall|j: int| 0 <= j < alive.len() ==> #[trigger] alive@[j])
                && alive.len() >= max_size,
        },
{
    let mut i: usize = 0;
    while i < alive.len()
        invariant
            i <= alive.len(),
            forall|j: int| 0 <= j < i ==> #[trigger] alive@[j],
        decreases alive.len() - i,
    {
        if !alive[i] {
            return PoolSlot::Reuse(i);
        }
        i += 1;
    }
    if alive.len() < max_size {
        PoolSlot::Append
    } else {
        PoolSlot::Full
    }
}

} // verus!
