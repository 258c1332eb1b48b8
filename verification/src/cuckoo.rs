//! Two-choice cuckoo hashing: every key has two buckets, and an insert that
//! finds its bucket taken evicts the key there and moves it to its other bucket.

use crate::hashing::{bucket_of, hash_to_bucket, hasher_family, keyed_hash, seeded_family};
use crate::meta_map::{empty_cell, full_cell, MetaMap, Metadata, MAX_META_BITS};
use crate::slots::{
    distinct, empty_slots, holds, keys_of, lemma_holds_at, lemma_keys_count, lemma_keys_update,
    lemma_occupied_bound, lemma_occupied_update, next_bucket, occupied, slot_is, successor,
};
use crate::telemetry::{Probe, Update, MAX_CHAIN};
use ahash::RandomState;
use vstd::prelude::*;

verus! {

/// The number of hashers a table keeps: one for the first bucket, the rest to
/// find a second bucket that differs from the first.
pub const HASHER_COUNT: usize = 5;

/// The second bucket of a key: the bucket under the first hasher from `from`
/// on that differs from `first`, or the bucket after `first` where none does.
pub open spec fn second_choice(
    hashers: Seq<RandomState>,
    key: u64,
    capacity: int,
    first: int,
    from: int,
) -> int
    decreases hashers.len() - from,
{
    if from < 0 || from >= hashers.len() {
        successor(first, capacity)
    } else if bucket_of(hashers[from], key, capacity) != first {
        bucket_of(hashers[from], key, capacity)
    } else {
        second_choice(hashers, key, capacity, first, from + 1)
    }
}

/// The two buckets of a key in a table of `capacity` buckets.
pub open spec fn alternatives_of(hashers: Seq<RandomState>, key: u64, capacity: int) -> (int, int) {
    let first = bucket_of(hashers[0], key, capacity);
    (first, second_choice(hashers, key, capacity, first, 1))
}

/// The metadata cell that goes with a slot: empty for an empty slot, full
/// with the key's first hash for a slot with a key.
pub open spec fn cell_for(hashers: Seq<RandomState>, slot: Option<u64>, bits: nat) -> (bool, nat) {
    match slot {
        Some(key) => full_cell(Metadata::Hash(keyed_hash(hashers[0], key)), bits),
        None => empty_cell(),
    }
}

/// Every key sits in one of its two buckets, in one slot only, and every
/// metadata cell goes with its slot.
pub open spec fn table_ok(
    hashers: Seq<RandomState>,
    slots: Seq<Option<u64>>,
    cells: Seq<(bool, nat)>,
    bits: nat,
) -> bool {
    &&& cells.len() == slots.len()
    &&& distinct(slots)
    &&& forall|i: int|
        0 <= i < slots.len() ==> ((#[trigger] slots[i]) matches Some(key) ==> {
            let (first, second) = alternatives_of(hashers, key, slots.len() as int);
            i == first || i == second
        })
    &&& forall|i: int| 0 <= i < slots.len() ==> #[trigger] cells[i] == cell_for(hashers, slots[i], bits)
}

/// Where an eviction chain ends: the buckets it leaves, the buckets it wrote
/// and read, and whether it found a place for the last key it carried.
pub struct Walk {
    pub slots: Seq<Option<u64>>,
    pub writes: nat,
    pub reads: nat,
    pub completed: bool,
}

/// The eviction chain that carries `active` to the bucket `target` with
/// `moves` moves left. An empty target takes the key, and the chain ends; it
/// is read only where the metadata has no bits to show it empty. A target
/// that holds the key itself ends the chain too. Any other key in the target
/// is evicted: the carried key takes its place, and the chain goes on with
/// the evicted key and its other bucket. With no move left the chain ends
/// without a place for the key it carries.
pub open spec fn walk(
    hashers: Seq<RandomState>,
    slots: Seq<Option<u64>>,
    bits: nat,
    active: u64,
    target: int,
    moves: nat,
) -> Walk
    decreases moves,
{
    if moves == 0 {
        Walk { slots, writes: 0, reads: 0, completed: false }
    } else {
        match slots[target] {
            None => Walk {
                slots: slots.update(target, Some(active)),
                writes: 1,
                reads: if bits == 0 {
                    1
                } else {
                    0
                },
                completed: true,
            },
            Some(found) => if found == active {
                Walk { slots, writes: 0, reads: 1, completed: true }
            } else {
                let (first, second) = alternatives_of(hashers, found, slots.len() as int);
                let next = if second == target {
                    first
                } else {
                    second
                };
                let rest = walk(
                    hashers,
                    slots.update(target, Some(active)),
                    bits,
                    found,
                    next,
                    (moves - 1) as nat,
                );
                Walk {
                    slots: rest.slots,
                    writes: rest.writes + 1,
                    reads: rest.reads + 1,
                    completed: rest.completed,
                }
            },
        }
    }
}

/// A hash set of `u64` keys with two candidate buckets per key.
pub struct Cuckoo {
    hashers: Vec<RandomState>,
    buckets: Vec<Option<u64>>,
    meta: MetaMap,
    len: usize,
}

impl View for Cuckoo {
    type V = Set<u64>;

    open spec fn view(&self) -> Set<u64> {
        keys_of(self.slots())
    }
}

impl Cuckoo {
    /// The buckets, in order.
    pub closed spec fn slots(&self) -> Seq<Option<u64>> {
        self.buckets@
    }

    /// The hasher states, the first of which gives the first bucket.
    pub closed spec fn hashers(&self) -> Seq<RandomState> {
        self.hashers@
    }

    /// The metadata sidecar.
    pub closed spec fn meta(&self) -> MetaMap {
        self.meta
    }

    /// The number of keys the table counts.
    pub closed spec fn spec_len(&self) -> nat {
        self.len as nat
    }

    /// The two buckets of a key.
    pub open spec fn alternatives(&self, key: u64) -> (int, int) {
        alternatives_of(self.hashers(), key, self.slots().len() as int)
    }

    /// The hash whose top bits the metadata keeps for a key.
    pub open spec fn hash_of(&self, key: u64) -> u64 {
        keyed_hash(self.hashers()[0], key)
    }

    /// The table has its hashers and at least two buckets.
    pub open spec fn shaped(&self) -> bool {
        &&& self.hashers().len() == HASHER_COUNT
        &&& self.slots().len() >= 2
        &&& self.meta().wf()
        &&& self.meta()@.len() == self.slots().len()
    }

    /// The invariant of the table.
    pub open spec fn wf(&self) -> bool {
        &&& self.shaped()
        &&& self.spec_len() == occupied(self.slots())
        &&& table_ok(self.hashers(), self.slots(), self.meta()@, self.meta().spec_bits())
    }

    /// The number of buckets a lookup of `key` reads: the first bucket unless
    /// the metadata rules it out, and the second, unless the key was in the
    /// first or the metadata rules the second out.
    pub open spec fn probe_reads(&self, key: u64) -> nat {
        let (first, second) = self.alternatives(key);
        let hash = self.hash_of(key);
        let first_read: nat = if self.meta().rules_out(first, hash) {
            0
        } else {
            1
        };
        let second_read: nat = if self.slots()[first] == Some(key) || self.meta().rules_out(
            second,
            hash,
        ) {
            0
        } else {
            1
        };
        first_read + second_read
    }

    /// An empty table whose hashers are drawn at random.
    pub fn new(capacity: usize, meta_bits: usize) -> (table: Cuckoo)
        requires
            capacity >= 2,
            meta_bits <= MAX_META_BITS,
            capacity * meta_bits <= crate::bits::max_bits(),
        ensures
            table.wf(),
            table@ == Set::<u64>::empty(),
            table.spec_len() == 0,
            table.slots() == Seq::new(capacity as nat, |i: int| None::<u64>),
            table.meta().spec_bits() == meta_bits,
    {
        Cuckoo::build(capacity, meta_bits, None)
    }

    /// An empty table whose hashers are fixed by `seed`.
    pub fn with_seed(capacity: usize, meta_bits: usize, seed: u64) -> (table: Cuckoo)
        requires
            capacity >= 2,
            meta_bits <= MAX_META_BITS,
            capacity * meta_bits <= crate::bits::max_bits(),
        ensures
            table.wf(),
            table@ == Set::<u64>::empty(),
            table.spec_len() == 0,
            table.slots() == Seq::new(capacity as nat, |i: int| None::<u64>),
            table.meta().spec_bits() == meta_bits,
            table.hashers() == seeded_family(seed, HASHER_COUNT as nat),
    {
        Cuckoo::build(capacity, meta_bits, Some(seed))
    }

    fn build(capacity: usize, meta_bits: usize, seed: Option<u64>) -> (table: Cuckoo)
        requires
            capacity >= 2,
            meta_bits <= MAX_META_BITS,
            capacity * meta_bits <= crate::bits::max_bits(),
        ensures
            table.wf(),
            table@ == Set::<u64>::empty(),
            table.spec_len() == 0,
            table.slots() == Seq::new(capacity as nat, |i: int| None::<u64>),
            table.meta().spec_bits() == meta_bits,
            seed matches Some(seed) ==> table.hashers() == seeded_family(seed, HASHER_COUNT as nat),
    {
        Cuckoo {
            hashers: hasher_family(HASHER_COUNT, seed),
            buckets: empty_slots(capacity),
            meta: MetaMap::new(capacity, meta_bits),
            len: 0,
        }
    }

    /// The hash and the two buckets of a key.
    fn buckets(&self, key: u64) -> (info: (u64, usize, usize))
        requires
            self.shaped(),
        ensures
            info.0 == self.hash_of(key),
            (info.1 as int, info.2 as int) == self.alternatives(key),
            info.1 < self.slots().len(),
            info.2 < self.slots().len(),
            info.1 != info.2,
    {
        two_choices(&self.hashers, key, self.buckets.len())
    }

    /// Puts a key into a bucket and records its hash in the metadata.
    fn set_bucket(&mut self, bucket: usize, key: u64, hash: u64)
        requires
            old(self).shaped(),
            bucket < old(self).slots().len(),
        ensures
            final(self).shaped(),
            final(self).hashers() == old(self).hashers(),
            final(self).spec_len() == old(self).spec_len(),
            final(self).slots() == old(self).slots().update(bucket as int, Some(key)),
            final(self).meta().spec_bits() == old(self).meta().spec_bits(),
            final(self).meta()@ == old(self).meta()@.update(
                bucket as int,
                full_cell(Metadata::Hash(hash), old(self).meta().spec_bits()),
            ),
    {
        self.buckets.set(bucket, Some(key));
        self.meta.set_full(bucket, Metadata::Hash(hash));
    }

    /// Empties a bucket and its metadata cell.
    fn clear_bucket(&mut self, bucket: usize)
        requires
            old(self).shaped(),
            bucket < old(self).slots().len(),
        ensures
            final(self).shaped(),
            final(self).hashers() == old(self).hashers(),
            final(self).spec_len() == old(self).spec_len(),
            final(self).slots() == old(self).slots().update(bucket as int, None),
            final(self).meta().spec_bits() == old(self).meta().spec_bits(),
            final(self).meta()@ == old(self).meta()@.update(bucket as int, empty_cell()),
    {
        self.buckets.set(bucket, None);
        self.meta.set_empty(bucket);
    }

    /// The number of keys in the set.
    pub fn len(&self) -> (len: usize)
        requires
            self.wf(),
        ensures
            len == self@.len(),
            len == self.spec_len(),
            len <= self.slots().len(),
    {
        proof {
            lemma_keys_count(self.slots());
            lemma_occupied_bound(self.slots());
        }
        self.len
    }

    /// The number of buckets, fixed when the table was made.
    pub fn capacity(&self) -> (capacity: usize)
        ensures
            capacity == self.slots().len(),
    {
        self.buckets.len()
    }

    /// What `probe` promises of a lookup of `key` in `table`.
    pub open spec fn probed(table: Cuckoo, key: u64, probe: Probe) -> bool {
        &&& (probe.contained == table@.contains(key))
        &&& (probe.probes == table.probe_reads(key))
        &&& (probe.probes <= 2)
    }

    /// Looks a key up in its two buckets, reading a bucket only where the
    /// metadata does not rule the key out.
    pub fn probe(&self, key: u64) -> (probe: Probe)
        requires
            self.wf(),
        ensures
            Cuckoo::probed(*self, key, probe),
    {
        let (hash, bucket_a, bucket_b) = self.buckets(key);
        let mut probes: usize = 0;
        proof {
            self.lemma_where(key);
        }
        if !self.meta.hint_not_match(bucket_a, hash) {
            probes += 1;
            if slot_is(&self.buckets[bucket_a], key) {
                return Probe { contained: true, probes };
            }
        }
        if !self.meta.hint_not_match(bucket_b, hash) {
            probes += 1;
            if slot_is(&self.buckets[bucket_b], key) {
                return Probe { contained: true, probes };
            }
        }
        Probe { contained: false, probes }
    }

    /// A key of the set sits in one of its two buckets, and the metadata does
    /// not rule it out there.
    pub proof fn lemma_where(&self, key: u64)
        requires
            self.wf(),
        ensures
            self@.contains(key) <==> (self.slots()[self.alternatives(key).0] == Some(key)
                || self.slots()[self.alternatives(key).1] == Some(key)),
            forall|i: int|
                0 <= i < self.slots().len() && self.slots()[i] == Some(key)
                    ==> !self.meta().rules_out(i, self.hash_of(key)),
    {
        let slots = self.slots();
        let (first, second) = self.alternatives(key);
        if self@.contains(key) {
            let i = choose|i: int| 0 <= i < slots.len() && #[trigger] slots[i] == Some(key);
            assert(i == first || i == second);
        }
        self.lemma_alternatives_in_range(key);
        assert forall|i: int| 0 <= i < slots.len() && slots[i] == Some(key) implies !self.meta().rules_out(
            i,
            self.hash_of(key),
        ) by {
            assert(self.meta()@[i] == cell_for(self.hashers(), slots[i], self.meta().spec_bits()));
        }
    }

    /// The two buckets of a key are buckets of the table, and they differ.
    pub proof fn lemma_alternatives_in_range(&self, key: u64)
        requires
            self.shaped(),
        ensures
            0 <= self.alternatives(key).0 < self.slots().len(),
            0 <= self.alternatives(key).1 < self.slots().len(),
            self.alternatives(key).0 != self.alternatives(key).1,
    {
        let capacity = self.slots().len() as int;
        let first = bucket_of(self.hashers()[0], key, capacity);
        lemma_second_choice(self.hashers(), key, capacity, first, 1);
    }

    /// What `insert` promises: how the table `after` an insert of `key` relates to the
    /// table `before` it, and what the `update` reports.
    pub open spec fn inserted(before: Cuckoo, key: u64, after: Cuckoo, update: Update) -> bool {
        &&& (after.wf())
        &&& (after.hashers() == before.hashers())
        &&& (after.slots().len() == before.slots().len())
        &&& (after.meta().spec_bits() == before.meta().spec_bits())
        &&& (before@.contains(key) ==> update.completed && update.total_writes == 0
                && after == before)
        &&& (!before@.contains(key) && update.completed ==> after@ == before@.insert(key)
                && 1 <= update.total_writes <= MAX_CHAIN)
        &&& (!before@.contains(key) && before.slots()[before.alternatives(key).0] is None
                ==> update.completed && update.total_writes == 1 && after.slots() == before.slots().update(before.alternatives(key).0, Some(key)))
        &&& (!update.completed ==> update.total_writes == MAX_CHAIN && exists|lost: u64|
                before@.insert(key).contains(lost) && after@ == before@.insert(
                    key,
                ).remove(lost))
        &&& (update.total_probes <= MAX_CHAIN + 1)
        &&& before.insert_outcome(key, after, update)
    }

    /// The number of reads of the look into the second bucket of a key that
    /// comes before an insert: 1 unless the metadata rules the key out there.
    pub open spec fn second_look(&self, key: u64) -> nat {
        if self.meta().rules_out(self.alternatives(key).1, self.hash_of(key)) {
            0
        } else {
            1
        }
    }

    /// The exact outcome of an insert. A key found in its second bucket is
    /// left there, at the cost of one read. Otherwise the table and the counts
    /// are those of the eviction chain that starts with the key at its first
    /// bucket, after the look into the second.
    pub open spec fn insert_outcome(&self, key: u64, after: Cuckoo, update: Update) -> bool {
        if self.slots()[self.alternatives(key).1] == Some(key) {
            &&& after == *self
            &&& update.completed
            &&& update.total_writes == 0
            &&& update.total_probes == 1
        } else {
            let end = walk(
                self.hashers(),
                self.slots(),
                self.meta().spec_bits(),
                key,
                self.alternatives(key).0,
                MAX_CHAIN as nat,
            );
            &&& after.slots() == end.slots
            &&& update.completed == end.completed
            &&& update.total_writes == end.writes
            &&& update.total_probes == self.second_look(key) + end.reads
        }
    }

    /// Adds a key. A key already in the set leaves the table as it is. A new
    /// key goes into its first bucket; a key it finds there moves to its
    /// other bucket, and so on for at most `MAX_CHAIN` moves. When the moves
    /// run out, the key last evicted is dropped and the insert reports that
    /// it did not complete.
    pub fn insert(&mut self, key: u64) -> (update: Update)
        requires
            old(self).wf(),
        ensures
            Cuckoo::inserted(*old(self), key, *final(self), update),
    {
        let mut update = Update { total_probes: 0, total_writes: 0, completed: true };
        let ghost before = *self;
        let (hash, bucket_a, bucket_b) = self.buckets(key);
        proof {
            self.lemma_where(key);
        }
        if !self.meta.hint_not_match(bucket_b, hash) {
            update.total_probes += 1;
            if slot_is(&self.buckets[bucket_b], key) {
                return update;
            }
        }
        let mut active_key = key;
        let mut active_hash = hash;
        let mut target = bucket_a;
        let mut steps: usize = 0;
        while steps < MAX_CHAIN
            invariant
                before == *old(self),
                before.wf(),
                self.wf(),
                self.hashers() == before.hashers(),
                self.slots().len() == before.slots().len(),
                self.meta().spec_bits() == before.meta().spec_bits(),
                steps <= MAX_CHAIN,
                target < self.slots().len(),
                target == self.alternatives(active_key).0 || target == self.alternatives(
                    active_key,
                ).1,
                active_hash == self.hash_of(active_key),
                steps == 0 ==> *self == before && active_key == key && target
                    == before.alternatives(key).0,
                holds(self.slots(), active_key) ==> steps == 0 && self.slots()[target as int]
                    == Some(key),
                steps > 0 ==> !before@.contains(key) && before@.insert(key).contains(active_key)
                    && self@ == before@.insert(key).remove(active_key)
                    && before.slots()[before.alternatives(key).0] is Some,
                update.completed,
                update.total_writes == steps,
                update.total_probes <= steps + 1,
                before.slots()[before.alternatives(key).1] != Some(key),
                ({
                    let end = walk(
                        before.hashers(),
                        before.slots(),
                        before.meta().spec_bits(),
                        key,
                        before.alternatives(key).0,
                        MAX_CHAIN as nat,
                    );
                    let rest = walk(
                        self.hashers(),
                        self.slots(),
                        self.meta().spec_bits(),
                        active_key,
                        target as int,
                        (MAX_CHAIN - steps) as nat,
                    );
                    &&& end.slots == rest.slots
                    &&& end.completed == rest.completed
                    &&& end.writes == update.total_writes + rest.writes
                    &&& end.reads + before.second_look(key) == update.total_probes + rest.reads
                }),
            decreases MAX_CHAIN - steps,
        {
            let ghost slots = self.slots();
            let ghost cells = self.meta()@;
            proof {
                assert(cells[target as int] == cell_for(
                    self.hashers(),
                    slots[target as int],
                    self.meta().spec_bits(),
                ));
            }
            if self.meta.hint_empty(target) {
                proof {
                    assert(slots[target as int] is None);
                    lemma_keys_update(slots, target as int, Some(active_key));
                    lemma_occupied_update(slots, target as int, Some(active_key));
                    lemma_occupied_bound(slots);
                }
                self.set_bucket(target, active_key, active_hash);
                assert(self.buckets.len() <= usize::MAX);
                self.len += 1;
                update.total_writes += 1;
                proof {
                    assert(self@ =~= before@.insert(key));
                }
                return update;
            }
            update.total_probes += 1;
            match self.buckets[target] {
                None => {
                    proof {
                        assert(slots[target as int] is None);
                        lemma_keys_update(slots, target as int, Some(active_key));
                        lemma_occupied_update(slots, target as int, Some(active_key));
                        lemma_occupied_bound(slots);
                    }
                    self.set_bucket(target, active_key, active_hash);
                    assert(self.buckets.len() <= usize::MAX);
                    self.len += 1;
                    update.total_writes += 1;
                    proof {
                        assert(self@ =~= before@.insert(key));
                    }
                    return update;
                },
                Some(k) => {
                    proof {
                        lemma_holds_at(slots, target as int, k);
                    }
                    if k == active_key {
                        return update;
                    }
                    proof {
                        lemma_keys_update(slots, target as int, Some(active_key));
                        lemma_occupied_update(slots, target as int, Some(active_key));
                    }
                    self.set_bucket(target, active_key, active_hash);
                    update.total_writes += 1;
                    let (swap_hash, swap_a, swap_b) = self.buckets(k);
                    proof {
                        assert(self@ =~= before@.insert(key).remove(k));
                        assert(!holds(self.slots(), k)) by {
                            assert(!self@.contains(k));
                        }
                    }
                    target = if swap_b == target {
                        swap_a
                    } else {
                        swap_b
                    };
                    active_key = k;
                    active_hash = swap_hash;
                },
            }
            steps += 1;
        }
        update.completed = false;
        update
    }

    /// What `remove` promises: how the table `after` a removal of `key` relates to the
    /// table `before` it, and what the `update` reports.
    pub open spec fn removed(before: Cuckoo, key: u64, after: Cuckoo, update: Update) -> bool {
        &&& (after.wf())
        &&& (after.hashers() == before.hashers())
        &&& (after.slots().len() == before.slots().len())
        &&& (after.meta().spec_bits() == before.meta().spec_bits())
        &&& (after@ == before@.remove(key))
        &&& (update.completed)
        &&& (update.total_probes == before.probe_reads(key))
        &&& (update.total_writes == if before@.contains(key) {
                1usize
            } else {
                0usize
            })
        &&& (!before@.contains(key) ==> after == before)
        &&& (forall|i: int|
            0 <= i < before.slots().len() ==> #[trigger] after.slots()[i] == if before.slots()[i]
                == Some(key) {
                None
            } else {
                before.slots()[i]
            })
    }

    /// Removes a key: clears the bucket that holds it, if one does.
    pub fn remove(&mut self, key: u64) -> (update: Update)
        requires
            old(self).wf(),
        ensures
            Cuckoo::removed(*old(self), key, *final(self), update),
    {
        let (hash, bucket_a, bucket_b) = self.buckets(key);
        let mut update = Update { total_probes: 0, total_writes: 0, completed: true };
        let ghost slots = self.slots();
        proof {
            self.lemma_where(key);
            lemma_occupied_bound(slots);
        }
        if !self.meta.hint_not_match(bucket_a, hash) {
            update.total_probes += 1;
            if slot_is(&self.buckets[bucket_a], key) {
                proof {
                    lemma_keys_update(slots, bucket_a as int, None);
                    lemma_occupied_update(slots, bucket_a as int, None);
                }
                self.clear_bucket(bucket_a);
                self.len -= 1;
                update.total_writes += 1;
                return update;
            }
        }
        if !self.meta.hint_not_match(bucket_b, hash) {
            update.total_probes += 1;
            if slot_is(&self.buckets[bucket_b], key) {
                proof {
                    lemma_keys_update(slots, bucket_b as int, None);
                    lemma_occupied_update(slots, bucket_b as int, None);
                }
                self.clear_bucket(bucket_b);
                self.len -= 1;
                update.total_writes += 1;
                return update;
            }
        }
        proof {
            assert(self@ =~= old(self)@.remove(key));
        }
        update
    }
}

/// The hash of a key under the first hasher and its two places among
/// `capacity` of them: the place under the first hasher, and the place under
/// the first later hasher that gives another one, or the next place where
/// none does.
pub(crate) fn two_choices(hashers: &Vec<RandomState>, key: u64, capacity: usize) -> (info: (
    u64,
    usize,
    usize,
))
    requires
        hashers.len() == HASHER_COUNT,
        capacity >= 2,
    ensures
        info.0 == keyed_hash(hashers@[0], key),
        (info.1 as int, info.2 as int) == alternatives_of(hashers@, key, capacity as int),
        info.1 < capacity,
        info.2 < capacity,
        info.1 != info.2,
{
    let (hash_a, bucket_a) = hash_to_bucket(&hashers[0], key, capacity);
    let mut cur_hasher: usize = 1;
    while cur_hasher < hashers.len()
        invariant
            hashers.len() == HASHER_COUNT,
            capacity >= 2,
            1 <= cur_hasher <= hashers.len(),
            bucket_a < capacity,
            hash_a == keyed_hash(hashers@[0], key),
            bucket_a == bucket_of(hashers@[0], key, capacity as int),
            second_choice(hashers@, key, capacity as int, bucket_a as int, 1) == second_choice(
                hashers@,
                key,
                capacity as int,
                bucket_a as int,
                cur_hasher as int,
            ),
        decreases hashers.len() - cur_hasher,
    {
        let (_, bucket_b) = hash_to_bucket(&hashers[cur_hasher], key, capacity);
        if bucket_b != bucket_a {
            return (hash_a, bucket_a, bucket_b);
        }
        cur_hasher += 1;
    }
    proof {
        lemma_second_choice(hashers@, key, capacity as int, bucket_a as int, cur_hasher as int);
    }
    (hash_a, bucket_a, next_bucket(bucket_a, capacity))
}

/// The second bucket is a bucket of the table other than the first.
pub proof fn lemma_second_choice(
    hashers: Seq<RandomState>,
    key: u64,
    capacity: int,
    first: int,
    from: int,
)
    requires
        capacity >= 2,
        0 <= first < capacity,
        0 <= from,
    ensures
        0 <= second_choice(hashers, key, capacity, first, from) < capacity,
        second_choice(hashers, key, capacity, first, from) != first,
    decreases hashers.len() - from,
{
    if from >= hashers.len() {
    } else if bucket_of(hashers[from], key, capacity) == first {
        lemma_second_choice(hashers, key, capacity, first, from + 1);
    } else {
        vstd::arithmetic::div_mod::lemma_mod_bound(keyed_hash(hashers[from], key) as int, capacity);
    }
}

impl Cuckoo {
    /// The count of a table is the number of keys in its set, and no more
    /// than the number of buckets.
    pub proof fn law_len_counts_keys(table: Cuckoo)
        requires
            table.wf(),
        ensures
            table@.finite(),
            table.spec_len() == table@.len(),
            table.spec_len() <= table.slots().len(),
    {
        lemma_keys_count(table.slots());
        lemma_occupied_bound(table.slots());
    }

    /// A key whose insert completed is found by the next lookup, which reads
    /// one bucket or two.
    pub proof fn law_inserted_key_is_found(
        before: Cuckoo,
        key: u64,
        after: Cuckoo,
        update: Update,
        probe: Probe,
    )
        requires
            before.wf(),
            Cuckoo::inserted(before, key, after, update),
            update.completed,
            Cuckoo::probed(after, key, probe),
        ensures
            probe.contained,
            1 <= probe.probes <= 2,
            probe.probes <= MAX_CHAIN,
    {
        after.lemma_where(key);
    }

    /// A key that is not in the set is not found.
    pub proof fn law_absent_key_is_not_found(table: Cuckoo, key: u64, probe: Probe)
        requires
            table.wf(),
            !table@.contains(key),
            Cuckoo::probed(table, key, probe),
        ensures
            !probe.contained,
    {
    }

    /// A key that was just removed is not found.
    pub proof fn law_removed_key_is_not_found(
        before: Cuckoo,
        key: u64,
        after: Cuckoo,
        update: Update,
        probe: Probe,
    )
        requires
            before.wf(),
            Cuckoo::removed(before, key, after, update),
            Cuckoo::probed(after, key, probe),
        ensures
            !probe.contained,
    {
    }

    /// Inserting a key again, after an insert of it that completed, completes,
    /// writes nothing and leaves the table and its count as they are.
    pub proof fn law_second_insert_changes_nothing(
        before: Cuckoo,
        key: u64,
        between: Cuckoo,
        first: Update,
        after: Cuckoo,
        second: Update,
    )
        requires
            before.wf(),
            Cuckoo::inserted(before, key, between, first),
            first.completed,
            Cuckoo::inserted(between, key, after, second),
        ensures
            second.completed,
            second.total_writes == 0,
            after == between,
            after.spec_len() == between.spec_len(),
    {
    }

    /// Inserting a new key and removing it again gives back the set and the
    /// count, where the insert completed.
    pub proof fn law_insert_then_remove(
        before: Cuckoo,
        key: u64,
        between: Cuckoo,
        first: Update,
        after: Cuckoo,
        second: Update,
    )
        requires
            before.wf(),
            !before@.contains(key),
            Cuckoo::inserted(before, key, between, first),
            first.completed,
            Cuckoo::removed(between, key, after, second),
        ensures
            after@ == before@,
            after.spec_len() == before.spec_len(),
            !after@.contains(key),
            second.completed,
            second.total_writes == 1,
    {
        assert(after@ =~= before@);
        Cuckoo::law_len_counts_keys(before);
        Cuckoo::law_len_counts_keys(after);
    }

    /// Every key sits in one of its two buckets.
    pub proof fn law_keys_sit_in_their_buckets(table: Cuckoo, bucket: int, key: u64)
        requires
            table.wf(),
            0 <= bucket < table.slots().len(),
            table.slots()[bucket] == Some(key),
        ensures
            bucket == table.alternatives(key).0 || bucket == table.alternatives(key).1,
    {
    }

    /// An insert that changes the table writes at least one bucket.
    pub proof fn law_change_costs_a_write(before: Cuckoo, key: u64, after: Cuckoo, update: Update)
        requires
            before.wf(),
            Cuckoo::inserted(before, key, after, update),
            after.slots() != before.slots(),
        ensures
            update.total_writes >= 1,
    {
    }

    /// Lookups and counts depend on the set alone: two tables that hold the
    /// same keys give the same answers, whatever their hashers.
    pub proof fn law_same_keys_same_answers(
        one: Cuckoo,
        other: Cuckoo,
        key: u64,
        probe_one: Probe,
        probe_other: Probe,
    )
        requires
            one.wf(),
            other.wf(),
            one@ == other@,
            Cuckoo::probed(one, key, probe_one),
            Cuckoo::probed(other, key, probe_other),
        ensures
            probe_one.contained == probe_other.contained,
            one.spec_len() == other.spec_len(),
    {
        Cuckoo::law_len_counts_keys(one);
        Cuckoo::law_len_counts_keys(other);
    }

    /// Two tables that hold the same keys hold the same keys after the same
    /// insert, where it completes on both.
    pub proof fn law_same_keys_after_insert(
        one: Cuckoo,
        other: Cuckoo,
        key: u64,
        one_after: Cuckoo,
        other_after: Cuckoo,
        update_one: Update,
        update_other: Update,
    )
        requires
            one.wf(),
            other.wf(),
            one@ == other@,
            Cuckoo::inserted(one, key, one_after, update_one),
            Cuckoo::inserted(other, key, other_after, update_other),
            update_one.completed,
            update_other.completed,
        ensures
            one_after@ == other_after@,
            one_after.spec_len() == other_after.spec_len(),
    {
        Cuckoo::law_len_counts_keys(one_after);
        Cuckoo::law_len_counts_keys(other_after);
    }

    /// Two tables with the same hashers, the same buckets and the same
    /// metadata width are left with the same buckets by the same insert, which
    /// reports the same on both.
    pub proof fn law_same_table_after_insert(
        one: Cuckoo,
        other: Cuckoo,
        key: u64,
        one_after: Cuckoo,
        other_after: Cuckoo,
        update_one: Update,
        update_other: Update,
    )
        requires
            one.wf(),
            other.wf(),
            one.hashers() == other.hashers(),
            one.slots() == other.slots(),
            one.meta().spec_bits() == other.meta().spec_bits(),
            Cuckoo::inserted(one, key, one_after, update_one),
            Cuckoo::inserted(other, key, other_after, update_other),
        ensures
            update_one == update_other,
            one_after.slots() == other_after.slots(),
            one_after@ == other_after@,
    {
        one.lemma_alternatives_in_range(key);
        assert(one.meta()@ =~= other.meta()@);
    }

    /// Two tables with the same hashers, the same buckets and the same
    /// metadata width are left with the same buckets by the same removal,
    /// which reports the same on both.
    pub proof fn law_same_table_after_remove(
        one: Cuckoo,
        other: Cuckoo,
        key: u64,
        one_after: Cuckoo,
        other_after: Cuckoo,
        update_one: Update,
        update_other: Update,
    )
        requires
            one.wf(),
            other.wf(),
            one.hashers() == other.hashers(),
            one.slots() == other.slots(),
            one.meta().spec_bits() == other.meta().spec_bits(),
            Cuckoo::removed(one, key, one_after, update_one),
            Cuckoo::removed(other, key, other_after, update_other),
        ensures
            update_one == update_other,
            one_after.slots() == other_after.slots(),
    {
        one.lemma_alternatives_in_range(key);
        assert(one.meta()@ =~= other.meta()@);
        assert(one_after.slots() =~= other_after.slots());
    }

    /// Two tables with the same hashers, the same buckets and the same
    /// metadata width answer the same lookup alike, reads included.
    pub proof fn law_same_table_same_probe(
        one: Cuckoo,
        other: Cuckoo,
        key: u64,
        probe_one: Probe,
        probe_other: Probe,
    )
        requires
            one.wf(),
            other.wf(),
            one.hashers() == other.hashers(),
            one.slots() == other.slots(),
            one.meta().spec_bits() == other.meta().spec_bits(),
            Cuckoo::probed(one, key, probe_one),
            Cuckoo::probed(other, key, probe_other),
        ensures
            probe_one == probe_other,
    {
        one.lemma_alternatives_in_range(key);
        assert(one.meta()@ =~= other.meta()@);
    }

    /// Whether `states`, `steps` and `updates` tell one history of a table:
    /// each step, an insert where its flag is set and a removal where it is
    /// not, leads from one state to the next and reports its update.
    pub open spec fn history(
        states: Seq<Cuckoo>,
        steps: Seq<(bool, u64)>,
        updates: Seq<Update>,
    ) -> bool {
        &&& states.len() == steps.len() + 1
        &&& updates.len() == steps.len()
        &&& forall|i: int|
            0 <= i < steps.len() ==> if (#[trigger] steps[i]).0 {
                Cuckoo::inserted(states[i], steps[i].1, states[i + 1], updates[i])
            } else {
                Cuckoo::removed(states[i], steps[i].1, states[i + 1], updates[i])
            }
    }

    /// Two histories of the same steps that start alike stay alike up to
    /// step `upto`.
    proof fn lemma_histories_agree(
        steps: Seq<(bool, u64)>,
        one: Seq<Cuckoo>,
        other: Seq<Cuckoo>,
        updates_one: Seq<Update>,
        updates_other: Seq<Update>,
        upto: int,
    )
        requires
            Cuckoo::history(one, steps, updates_one),
            Cuckoo::history(other, steps, updates_other),
            one[0].wf(),
            other[0].wf(),
            one[0].hashers() == other[0].hashers(),
            one[0].slots() == other[0].slots(),
            one[0].meta().spec_bits() == other[0].meta().spec_bits(),
            0 <= upto <= steps.len(),
        ensures
            one[upto].wf(),
            other[upto].wf(),
            one[upto].hashers() == other[upto].hashers(),
            one[upto].slots() == other[upto].slots(),
            one[upto].meta().spec_bits() == other[upto].meta().spec_bits(),
            forall|i: int| 0 <= i < upto ==> updates_one[i] == updates_other[i],
        decreases upto,
    {
        if upto > 0 {
            let last = upto - 1;
            Cuckoo::lemma_histories_agree(steps, one, other, updates_one, updates_other, last);
            let step = steps[last];
            if step.0 {
                Cuckoo::law_same_table_after_insert(
                    one[last],
                    other[last],
                    step.1,
                    one[last + 1],
                    other[last + 1],
                    updates_one[last],
                    updates_other[last],
                );
            } else {
                Cuckoo::law_same_table_after_remove(
                    one[last],
                    other[last],
                    step.1,
                    one[last + 1],
                    other[last + 1],
                    updates_one[last],
                    updates_other[last],
                );
            }
        }
    }

    /// Two tables built with the same capacity, metadata width and seed, and
    /// then taken through the same inserts and removals, report the same
    /// updates and hold the same buckets, the same keys and the same count
    /// after every step.
    pub proof fn law_same_seed_same_history(
        seed: u64,
        steps: Seq<(bool, u64)>,
        one: Seq<Cuckoo>,
        other: Seq<Cuckoo>,
        updates_one: Seq<Update>,
        updates_other: Seq<Update>,
    )
        requires
            Cuckoo::history(one, steps, updates_one),
            Cuckoo::history(other, steps, updates_other),
            one[0].wf(),
            other[0].wf(),
            one[0].hashers() == seeded_family(seed, HASHER_COUNT as nat),
            other[0].hashers() == seeded_family(seed, HASHER_COUNT as nat),
            one[0].slots() == other[0].slots(),
            one[0].meta().spec_bits() == other[0].meta().spec_bits(),
        ensures
            updates_one == updates_other,
            forall|i: int|
                0 <= i <= steps.len() ==> (#[trigger] one[i]).slots() == other[i].slots()
                    && one[i]@ == other[i]@ && one[i].spec_len() == other[i].spec_len(),
    {
        assert forall|i: int| 0 <= i <= steps.len() implies (#[trigger] one[i]).slots()
            == other[i].slots() && one[i]@ == other[i]@ && one[i].spec_len()
            == other[i].spec_len() by {
            Cuckoo::lemma_histories_agree(steps, one, other, updates_one, updates_other, i);
            Cuckoo::law_len_counts_keys(one[i]);
            Cuckoo::law_len_counts_keys(other[i]);
        }
        Cuckoo::lemma_histories_agree(
            steps,
            one,
            other,
            updates_one,
            updates_other,
            steps.len() as int,
        );
        assert(updates_one =~= updates_other);
    }

    /// An insert of a new key into a table without an empty bucket does not
    /// complete: one key of the set, or the new key, is dropped, and the count
    /// stays.
    pub proof fn law_full_table_rejects(before: Cuckoo, key: u64, after: Cuckoo, update: Update)
        requires
            before.wf(),
            before.spec_len() == before.slots().len(),
            !before@.contains(key),
            Cuckoo::inserted(before, key, after, update),
        ensures
            !update.completed,
            after.spec_len() == before.spec_len(),
    {
        Cuckoo::law_len_counts_keys(before);
        Cuckoo::law_len_counts_keys(after);
        if !update.completed {
            let lost = choose|lost: u64|
                before@.insert(key).contains(lost) && after@ == before@.insert(key).remove(lost);
            assert(before@.insert(key).remove(lost).len() == before@.len());
        }
    }

    /// Removing a key that is not in the set completes, writes nothing and
    /// leaves the table as it is.
    pub proof fn law_remove_of_absent_key(before: Cuckoo, key: u64, after: Cuckoo, update: Update)
        requires
            before.wf(),
            !before@.contains(key),
            Cuckoo::removed(before, key, after, update),
        ensures
            update.completed,
            update.total_writes == 0,
            after == before,
    {
    }

    /// Metadata never adds a read: a lookup in a table without metadata bits
    /// reads at least as many buckets as a lookup in a table with the same
    /// buckets and any metadata, and both give the same answer.
    pub proof fn law_metadata_saves_reads(
        blind: Cuckoo,
        sighted: Cuckoo,
        key: u64,
        probe_blind: Probe,
        probe_sighted: Probe,
    )
        requires
            blind.wf(),
            sighted.wf(),
            blind.hashers() == sighted.hashers(),
            blind.slots() == sighted.slots(),
            blind.meta().spec_bits() == 0,
            Cuckoo::probed(blind, key, probe_blind),
            Cuckoo::probed(sighted, key, probe_sighted),
        ensures
            probe_sighted.contained == probe_blind.contained,
            probe_sighted.probes <= probe_blind.probes,
    {
    }
}

} // verus!
