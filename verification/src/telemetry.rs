//! What a lookup and an update report back to the caller.

use vstd::prelude::*;

verus! {

/// The longest eviction chain an insert follows before it gives up.
pub const MAX_CHAIN: usize = 128;

/// Outcome of a lookup.
#[derive(Clone, Copy, Debug, PartialEq, Eq, Structural)]
pub struct Probe {
    /// Whether the key is in the set.
    pub contained: bool,
    /// Number of buckets read; metadata reads are not counted.
    pub probes: usize,
}

/// Outcome of an insert or a remove.
#[derive(Clone, Copy, Debug, PartialEq, Eq, Structural)]
pub struct Update {
    /// Number of buckets read.
    pub total_probes: usize,
    /// Number of buckets written.
    pub total_writes: usize,
    /// Whether the operation reached a terminal state within its bound.
    pub completed: bool,
}

impl Update {
    /// Whether a driver keeps going after this update: the update completed and
    /// read at most `MAX_CHAIN` buckets.
    pub fn within_budget(&self) -> (ok: bool)
        ensures
            ok == (self.completed && self.total_probes <= MAX_CHAIN),
    {
        self.completed && self.total_probes <= MAX_CHAIN
    }
}

} // verus!
