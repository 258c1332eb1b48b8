//! A producer of distinct keys for a driver that fills, probes and churns a
//! table: two cursors, between which the keys in use lie.

use crate::random::random_between;
use rand::rngs::StdRng;
use vstd::prelude::*;

verus! {

/// The keys handed out and not yet taken back are those above `min` and
/// below `max`.
#[derive(Clone, Copy, Debug, PartialEq, Eq, Structural)]
pub struct KeySet {
    max: u64,
    min: u64,
}

impl Default for KeySet {
    /// A key set with both cursors at 0: no key is in use.
    fn default() -> (keys: KeySet)
        ensures
            keys.wf(),
            keys.lower() == 0,
            keys.upper() == 0,
    {
        KeySet { max: 0, min: 0 }
    }
}

impl KeySet {
    /// The cursor below the keys in use.
    pub closed spec fn lower(&self) -> u64 {
        self.min
    }

    /// The cursor above the keys in use: the next key to hand out.
    pub closed spec fn upper(&self) -> u64 {
        self.max
    }

    /// The cursors are in order.
    pub open spec fn wf(&self) -> bool {
        self.lower() <= self.upper()
    }

    /// Whether a key is in use.
    pub open spec fn in_use(&self, key: u64) -> bool {
        self.lower() < key < self.upper()
    }

    /// The upper cursor: the key that `push` hands out next.
    pub fn next_key(&self) -> (key: u64)
        ensures
            key == self.upper(),
    {
        self.max
    }

    /// The distance between the cursors.
    pub fn len(&self) -> (len: usize)
        requires
            self.wf(),
            self.upper() - self.lower() <= usize::MAX,
        ensures
            len == self.upper() - self.lower(),
    {
        (self.max - self.min) as usize
    }

    /// Hands out a fresh key: the upper cursor, which moves up by one.
    pub fn push(&mut self) -> (key: u64)
        requires
            old(self).wf(),
            old(self).upper() < u64::MAX,
        ensures
            final(self).wf(),
            key == old(self).upper(),
            final(self).upper() == old(self).upper() + 1,
            final(self).lower() == old(self).lower(),
    {
        self.max += 1;
        self.max - 1
    }

    /// Takes back the oldest key: the lower cursor moves up by one, and the
    /// key is the cursor's new place.
    pub fn pop(&mut self) -> (key: u64)
        requires
            old(self).lower() < old(self).upper(),
        ensures
            final(self).wf(),
            key == old(self).lower() + 1,
            final(self).lower() == old(self).lower() + 1,
            final(self).upper() == old(self).upper(),
    {
        self.min += 1;
        self.min
    }

    /// A key in use, drawn at random. There must be one.
    pub fn existing(&self, rng: &mut StdRng) -> (key: u64)
        requires
            self.lower() + 1 < self.upper(),
        ensures
            self.in_use(key),
    {
        random_between(rng, self.min + 1, self.max)
    }

    /// A key that was never handed out, drawn at random from the upper cursor
    /// on.
    pub fn nonexisting(&self, rng: &mut StdRng) -> (key: u64)
        requires
            self.upper() < u64::MAX,
        ensures
            self.upper() <= key < u64::MAX,
            !self.in_use(key),
    {
        random_between(rng, self.max, u64::MAX)
    }
}

} // verus!
