//! Performance: timing a section of code and counting entities over time.
use vstd::prelude::*;
use std::time::{Duration, Instant};
use crate::text::owned;

verus! {

/// `std::time::Instant`, a point on the monotonic clock; Verus sees nothing
/// inside it.
#[verifier::external_type_specification]
#[verifier::external_body]
pub struct ExInstant(Instant);

/// `Instant::now`: the current time. Nothing is stated of it: it depends on
/// the clock.
#[verifier::external_body]
fn now() -> Instant {
    Instant::now()
}

/// `Instant::elapsed`: the time since `start`. Nothing is stated of it: it
/// depends on the clock.
#[verifier::external_body]
fn elapsed_since(start: &Instant) -> Duration {
    start.elapsed()
}

/// `Duration::as_micros`: the whole microseconds of `d`. Nothing is stated of
/// it: `Duration` is opaque here.
#[verifier::external_body]
fn whole_micros(d: &Duration) -> u128 {
    d.as_micros()
}

/// Measures the time since it was started.
pub struct ScopeTimer {
    start: Instant,
    label: String,
}

impl ScopeTimer {
    /// The label given when the timer was started.
    pub closed spec fn name(&self) -> Seq<char> {
        self.label@
    }

    /// Starts a timer now.
    pub fn start(label: &str) -> (t: Self)
        ensures
            t.name() == label@,
    {
        ScopeTimer { start: now(), label: owned(label) }
    }

    /// The instant the timer was started at.
    pub closed spec fn start_instant(&self) -> Instant {
        self.start
    }

    /// When the timer was started.
    pub fn started_at(&self) -> (i: Instant)
        ensures
            i == self.start_instant(),
    {
        self.start
    }

    /// Whole microseconds since the timer was started.
    pub fn elapsed_micros(&self) -> u128 {
        let d = elapsed_since(&self.start);
        whole_micros(&d)
    }
}

/// Counts live entities, the highest count reached, and all spawns and
/// despawns.
pub struct EntityProfiler {
    pub current_count: usize,
    pub peak_count: usize,
    pub total_spawned: u64,
    pub total_despawned: u64,
}

impl EntityProfiler {
    pub fn new() -> (p: Self)
        ensures
            p.current_count == 0,
            p.peak_count == 0,
            p.total_spawned == 0,
            p.total_despawned == 0,
    {
        EntityProfiler { current_count: 0, peak_count: 0, total_spawned: 0, total_despawned: 0 }
    }

    /// Records `count` new entities; the peak follows the live count upwards.
    pub fn on_spawn(&mut self, count: usize)
        requires
            old(self).current_count + count <= usize::MAX,
            old(self).total_spawned + count <= u64::MAX,
        ensures
            final(self).current_count == old(self).current_count + count,
            final(self).total_spawned == old(self).total_spawned + count,
            final(self).peak_count == if old(self).peak_count >= final(self).current_count {
                old(self).peak_count
            } else {
                final(self).current_count
            },
            final(self).total_despawned == old(self).total_despawned,
            final(self).peak_count >= old(self).peak_count,
            final(self).current_count <= final(self).peak_count,
    {
        self.current_count += count;
        self.total_spawned += count as u64;
        if self.current_count > self.peak_count {
            self.peak_count = self.current_count;
        }
    }

    /// Records `count` removed entities; the live count stops at 0.
    pub fn on_despawn(&mut self, count: usize)
        requires
            old(self).total_despawned + count <= u64::MAX,
        ensures
            final(self).current_count == if old(self).current_count >= count {
                old(self).current_count - count
            } else {
                0
            },
            final(self).total_despawned == old(self).total_despawned + count,
            final(self).peak_count == old(self).peak_count,
            final(self).total_spawned == old(self).total_spawned,
            old(self).current_count <= old(self).peak_count ==> final(self).current_count
                <= final(self).peak_count,
    {
        self.current_count = if self.current_count >= count {
            self.current_count - count
        } else {
            0
        };
        self.total_despawned += count as u64;
    }
}

impl Default for EntityProfiler {
    fn default() -> (p: Self)
        ensures
            p.current_count == 0,
            p.peak_count == 0,
            p.total_spawned == 0,
            p.total_despawned == 0,
    {
        Self::new()
    }
}

} // verus!
