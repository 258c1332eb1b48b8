//! Three-choice cuckoo hashing over the whole table: every key has three
//! buckets that differ from one another, and an insert that finds all of them
//! taken evicts a key from one of them, picked at random.

use crate::hashing::{bucket_of, hash_to_bucket, hasher_family, keyed_hash, seeded_family};
use crate::meta_map::{empty_cell, full_cell, MetaMap, Metadata, MAX_META_BITS};
use crate::random::{fresh_rng, random_below, seeded_rng};
use crate::slots::{
    distinct, empty_slots, holds, keys_of, lemma_holds_at, lemma_keys_count, lemma_keys_update,
    lemma_occupied_bound, lemma_occupied_update, next_bucket, occupied, slot_is, successor,
};
use crate::telemetry::{Probe, Update, MAX_CHAIN};
use ahash::RandomState;
use rand::rngs::StdRng;
use vstd::prelude::*;

verus! {

/// The number of hashers a table keeps: three for the three buckets, the
/// rest to replace a bucket that falls on one already taken.
pub const HASHER_COUNT: usize = 6;

/// A bucket that is neither of two taken ones: the first such after the
/// second taken bucket.
pub open spec fn spare_bucket(capacity: int, taken_a: int, taken_b: int) -> int {
    let next = successor(taken_b, capacity);
    if next != taken_a {
        next
    } else {
        successor(next, capacity)
    }
}

/// Settles a candidate bucket against two taken ones: while it falls on one
/// of them it is replaced by the bucket under the next spare hasher, and by
/// the spare bucket when the hashers run out. Gives the bucket and the index
/// of the next spare hasher.
pub open spec fn settle(
    hashers: Seq<RandomState>,
    key: u64,
    capacity: int,
    taken_a: int,
    taken_b: int,
    candidate: int,
    from: int,
) -> (int, int)
    decreases hashers.len() - from,
{
    if candidate != taken_a && candidate != taken_b {
        (candidate, from)
    } else if from < 0 || from >= hashers.len() {
        (spare_bucket(capacity, taken_a, taken_b), from)
    } else {
        settle(
            hashers,
            key,
            capacity,
            taken_a,
            taken_b,
            bucket_of(hashers[from], key, capacity),
            from + 1,
        )
    }
}

/// The three buckets of a key in a table of `capacity` buckets.
pub open spec fn alternatives_of(hashers: Seq<RandomState>, key: u64, capacity: int) -> (
    int,
    int,
    int,
) {
    let first = bucket_of(hashers[0], key, capacity);
    let (second, next) = settle(
        hashers,
        key,
        capacity,
        first,
        first,
        bucket_of(hashers[1], key, capacity),
        3,
    );
    let (third, _) = settle(
        hashers,
        key,
        capacity,
        first,
        second,
        bucket_of(hashers[2], key, capacity),
        next,
    );
    (first, second, third)
}

/// Whether a bucket is one of three.
pub open spec fn among(bucket: int, three: (int, int, int)) -> bool {
    bucket == three.0 || bucket == three.1 || bucket == three.2
}

/// The metadata cell that goes with a slot: empty for an empty slot, full
/// with the key's first hash for a slot with a key.
pub open spec fn cell_for(hashers: Seq<RandomState>, slot: Option<u64>, bits: nat) -> (bool, nat) {
    match slot {
        Some(key) => full_cell(Metadata::Hash(keyed_hash(hashers[0], key)), bits),
        None => empty_cell(),
    }
}

/// Every key sits in one of its three buckets, in one slot only, and every
/// metadata cell goes with its slot.
pub open spec fn table_ok(
    hashers: Seq<RandomState>,
    slots: Seq<Option<u64>>,
    cells: Seq<(bool, nat)>,
    bits: nat,
) -> bool {
    &&& cells.len() == slots.len()
    &&& distinct(slots)
    &&& forall|i: int|
        0 <= i < slots.len() ==> ((#[trigger] slots[i]) matches Some(key) ==> among(
            i,
            alternatives_of(hashers, key, slots.len() as int),
        ))
    &&& forall|i: int| 0 <= i < slots.len() ==> #[trigger] cells[i] == cell_for(hashers, slots[i], bits)
}

/// A bucket that is neither of two taken ones: the first such after the
/// second taken bucket, around the end of the table.
pub fn spare_for(capacity: usize, taken_a: usize, taken_b: usize) -> (spare: usize)
    requires
        taken_a < capacity,
        taken_b < capacity,
    ensures
        spare == spare_bucket(capacity as int, taken_a as int, taken_b as int),
{
    let next = next_bucket(taken_b, capacity);
    if next != taken_a {
        next
    } else {
        next_bucket(next, capacity)
    }
}

/// The spare bucket is a bucket of the table and neither of the taken ones.
pub proof fn lemma_spare_bucket(capacity: int, taken_a: int, taken_b: int)
    requires
        capacity >= 3,
        0 <= taken_a < capacity,
        0 <= taken_b < capacity,
    ensures
        0 <= spare_bucket(capacity, taken_a, taken_b) < capacity,
        spare_bucket(capacity, taken_a, taken_b) != taken_a,
        spare_bucket(capacity, taken_a, taken_b) != taken_b,
{
}

/// A settled bucket is a bucket of the table and neither of the taken ones.
pub proof fn lemma_settle(
    hashers: Seq<RandomState>,
    key: u64,
    capacity: int,
    taken_a: int,
    taken_b: int,
    candidate: int,
    from: int,
)
    requires
        capacity >= 3,
        0 <= taken_a < capacity,
        0 <= taken_b < capacity,
        0 <= candidate < capacity,
        0 <= from,
    ensures
        0 <= settle(hashers, key, capacity, taken_a, taken_b, candidate, from).0 < capacity,
        settle(hashers, key, capacity, taken_a, taken_b, candidate, from).0 != taken_a,
        settle(hashers, key, capacity, taken_a, taken_b, candidate, from).0 != taken_b,
        settle(hashers, key, capacity, taken_a, taken_b, candidate, from).1 >= from,
    decreases hashers.len() - from,
{
    if candidate != taken_a && candidate != taken_b {
    } else if from >= hashers.len() {
        lemma_spare_bucket(capacity, taken_a, taken_b);
    } else {
        vstd::arithmetic::div_mod::lemma_mod_bound(keyed_hash(hashers[from], key) as int, capacity);
        lemma_settle(
            hashers,
            key,
            capacity,
            taken_a,
            taken_b,
            bucket_of(hashers[from], key, capacity),
            from + 1,
        );
    }
}

/// The three buckets of a key are buckets of the table and differ from one
/// another.
pub proof fn lemma_alternatives(hashers: Seq<RandomState>, key: u64, capacity: int)
    requires
        capacity >= 3,
        hashers.len() >= 3,
    ensures
        ({
            let (first, second, third) = alternatives_of(hashers, key, capacity);
            &&& 0 <= first < capacity
            &&& 0 <= second < capacity
            &&& 0 <= third < capacity
            &&& first != second
            &&& first != third
            &&& second != third
        }),
{
    vstd::arithmetic::div_mod::lemma_mod_bound(keyed_hash(hashers[0], key) as int, capacity);
    vstd::arithmetic::div_mod::lemma_mod_bound(keyed_hash(hashers[1], key) as int, capacity);
    vstd::arithmetic::div_mod::lemma_mod_bound(keyed_hash(hashers[2], key) as int, capacity);
    let first = bucket_of(hashers[0], key, capacity);
    lemma_settle(hashers, key, capacity, first, first, bucket_of(hashers[1], key, capacity), 3);
    let (second, next) = settle(
        hashers,
        key,
        capacity,
        first,
        first,
        bucket_of(hashers[1], key, capacity),
        3,
    );
    lemma_settle(hashers, key, capacity, first, second, bucket_of(hashers[2], key, capacity), next);
}

/// The state of an eviction chain: the buckets, the key it carries, which of
/// that key's three buckets it may not go back to (3 for none), the buckets
/// written and read so far, and whether the chain has found a place and ended.
pub struct Chain {
    pub slots: Seq<Option<u64>>,
    pub active: u64,
    pub barred: int,
    pub writes: nat,
    pub reads: nat,
    pub done: bool,
}

/// The number of buckets a carried key may go to: all three, or the two it
/// was not evicted from.
pub open spec fn usable_count(barred: int) -> int {
    if barred == 3 {
        3
    } else {
        2
    }
}

/// The first of the buckets a carried key may go to that is empty, with the
/// number of buckets looked at up to it; `None` where all are taken.
pub open spec fn vacancy(slots: Seq<Option<u64>>, three: (int, int, int), barred: int) -> Option<
    (int, nat),
> {
    if barred != 0 && slots[three.0] is None {
        Some((three.0, 1nat))
    } else if barred != 1 && slots[three.1] is None {
        Some(
            (
                three.1,
                if barred == 0 {
                    1nat
                } else {
                    2nat
                },
            ),
        )
    } else if barred != 2 && slots[three.2] is None {
        Some((three.2, usable_count(barred) as nat))
    } else {
        None
    }
}

/// The bucket that a draw picks for eviction: the draw, modulo the number of
/// buckets the carried key may go to, counts through those buckets in order.
pub open spec fn victim_of(three: (int, int, int), barred: int, pick: usize) -> int {
    let index = pick as int % usable_count(barred);
    let place = if barred != 3 && index >= barred {
        index + 1
    } else {
        index
    };
    if place == 0 {
        three.0
    } else if place == 1 {
        three.1
    } else {
        three.2
    }
}

/// Which of three buckets a bucket is: 0, 1 or 2.
pub open spec fn place_of(bucket: int, three: (int, int, int)) -> int {
    if bucket == three.0 {
        0
    } else if bucket == three.1 {
        1
    } else {
        2
    }
}

/// One move of an eviction chain. A chain that has ended stays as it is.
/// Otherwise the carried key goes into the first empty bucket it may go to,
/// and the chain ends; or, where all of them are taken, it takes the place of
/// the key in the bucket that `pick` picks, and that key is carried on, barred
/// from the bucket it left. Looking for an empty bucket costs a read for each
/// bucket looked at where the metadata has no bits, and nothing otherwise; an
/// eviction costs one read where the metadata has bits.
pub open spec fn step(hashers: Seq<RandomState>, bits: nat, chain: Chain, pick: usize) -> Chain {
    let three = alternatives_of(hashers, chain.active, chain.slots.len() as int);
    if chain.done {
        chain
    } else {
        match vacancy(chain.slots, three, chain.barred) {
            Some((bucket, looked)) => Chain {
                slots: chain.slots.update(bucket, Some(chain.active)),
                active: chain.active,
                barred: chain.barred,
                writes: chain.writes + 1,
                reads: chain.reads + if bits == 0 {
                    looked
                } else {
                    0
                },
                done: true,
            },
            None => {
                let victim = victim_of(three, chain.barred, pick);
                let found = chain.slots[victim]->0;
                Chain {
                    slots: chain.slots.update(victim, Some(chain.active)),
                    active: found,
                    barred: place_of(
                        victim,
                        alternatives_of(hashers, found, chain.slots.len() as int),
                    ),
                    writes: chain.writes + 1,
                    reads: chain.reads + if bits == 0 {
                        usable_count(chain.barred) as nat
                    } else {
                        1
                    },
                    done: false,
                }
            },
        }
    }
}

/// The chain after one move for each pick, in order.
pub open spec fn run(hashers: Seq<RandomState>, bits: nat, start: Chain, picks: Seq<usize>) -> Chain
    decreases picks.len(),
{
    if picks.len() == 0 {
        start
    } else {
        step(hashers, bits, run(hashers, bits, start, picks.drop_last()), picks.last())
    }
}

/// A chain that has ended is not changed by further picks.
pub proof fn lemma_done_stays(
    hashers: Seq<RandomState>,
    bits: nat,
    start: Chain,
    picks: Seq<usize>,
    more: Seq<usize>,
)
    requires
        run(hashers, bits, start, picks).done,
    ensures
        run(hashers, bits, start, picks + more) == run(hashers, bits, start, picks),
    decreases more.len(),
{
    if more.len() == 0 {
        assert(picks + more =~= picks);
    } else {
        lemma_done_stays(hashers, bits, start, picks, more.drop_last());
        assert((picks + more).drop_last() =~= picks + more.drop_last());
    }
}

/// The bucket that a draw picks for eviction among the three buckets of a
/// key, one of which may be barred.
pub fn victim(first: usize, second: usize, third: usize, barred: usize, pick: usize) -> (bucket:
    usize)
    requires
        barred <= 3,
    ensures
        bucket == victim_of((first as int, second as int, third as int), barred as int, pick),
        barred != 0 && bucket == first || barred != 1 && bucket == second || barred != 2 && bucket
            == third,
{
    let count: usize = if barred == 3 {
        3
    } else {
        2
    };
    let index = pick % count;
    let place = if barred != 3 && index >= barred {
        index + 1
    } else {
        index
    };
    if place == 0 {
        first
    } else if place == 1 {
        second
    } else {
        third
    }
}

/// A hash set of `u64` keys with three candidate buckets per key.
pub struct ThreeAryCuckoo {
    hashers: Vec<RandomState>,
    buckets: Vec<Option<u64>>,
    meta: MetaMap,
    len: usize,
    rng: StdRng,
}

impl View for ThreeAryCuckoo {
    type V = Set<u64>;

    open spec fn view(&self) -> Set<u64> {
        keys_of(self.slots())
    }
}

impl ThreeAryCuckoo {
    /// The buckets, in order.
    pub closed spec fn slots(&self) -> Seq<Option<u64>> {
        self.buckets@
    }

    /// The hasher states; the first three give the three buckets.
    pub closed spec fn hashers(&self) -> Seq<RandomState> {
        self.hashers@
    }

    /// The metadata sidecar.
    pub closed spec fn meta(&self) -> MetaMap {
        self.meta
    }

    /// The number of keys the table counts.
    pub closed spec fn spec_len(&self) -> nat {
        self.len as nat
    }

    /// The three buckets of a key.
    pub open spec fn alternatives(&self, key: u64) -> (int, int, int) {
        alternatives_of(self.hashers(), key, self.slots().len() as int)
    }

    /// The hash whose top bits the metadata keeps for a key.
    pub open spec fn hash_of(&self, key: u64) -> u64 {
        keyed_hash(self.hashers()[0], key)
    }

    /// The table has its hashers and at least three buckets.
    pub open spec fn shaped(&self) -> bool {
        &&& self.hashers().len() == HASHER_COUNT
        &&& self.slots().len() >= 3
        &&& self.meta().wf()
        &&& self.meta()@.len() == self.slots().len()
    }

    /// The invariant of the table.
    pub open spec fn wf(&self) -> bool {
        &&& self.shaped()
        &&& self.spec_len() == occupied(self.slots())
        &&& table_ok(self.hashers(), self.slots(), self.meta()@, self.meta().spec_bits())
    }

    /// 1 where a lookup reads the bucket: where the metadata does not rule
    /// the key out.
    pub open spec fn read_at(&self, bucket: int, key: u64) -> nat {
        if self.meta().rules_out(bucket, self.hash_of(key)) {
            0
        } else {
            1
        }
    }

    /// The number of buckets a lookup of `key` reads: each of the three
    /// buckets in turn, up to the one that holds the key, but for those that
    /// the metadata rules out.
    pub open spec fn probe_reads(&self, key: u64) -> nat {
        let (first, second, third) = self.alternatives(key);
        if self.slots()[first] == Some(key) {
            self.read_at(first, key)
        } else if self.slots()[second] == Some(key) {
            self.read_at(first, key) + self.read_at(second, key)
        } else {
            self.read_at(first, key) + self.read_at(second, key) + self.read_at(third, key)
        }
    }

    /// The first of the three buckets of a key that is empty, if one is.
    pub open spec fn first_empty(&self, key: u64) -> Option<int> {
        let (first, second, third) = self.alternatives(key);
        if self.slots()[first] is None {
            Some(first)
        } else if self.slots()[second] is None {
            Some(second)
        } else if self.slots()[third] is None {
            Some(third)
        } else {
            None
        }
    }

    /// An empty table whose hashers and eviction choices are drawn at random.
    pub fn new(capacity: usize, meta_bits: usize) -> (table: ThreeAryCuckoo)
        requires
            capacity >= 3,
            meta_bits <= MAX_META_BITS,
            capacity * meta_bits <= crate::bits::max_bits(),
        ensures
            table.wf(),
            table@ == Set::<u64>::empty(),
            table.spec_len() == 0,
            table.slots() == Seq::new(capacity as nat, |i: int| None::<u64>),
            table.meta().spec_bits() == meta_bits,
    {
        ThreeAryCuckoo {
            hashers: hasher_family(HASHER_COUNT, None),
            buckets: empty_slots(capacity),
            meta: MetaMap::new(capacity, meta_bits),
            len: 0,
            rng: fresh_rng(),
        }
    }

    /// An empty table whose hashers and eviction choices are fixed by `seed`.
    pub fn with_seed(capacity: usize, meta_bits: usize, seed: u64) -> (table: ThreeAryCuckoo)
        requires
            capacity >= 3,
            meta_bits <= MAX_META_BITS,
            capacity * meta_bits <= crate::bits::max_bits(),
        ensures
            table.wf(),
            table@ == Set::<u64>::empty(),
            table.spec_len() == 0,
            table.slots() == Seq::new(capacity as nat, |i: int| None::<u64>),
            table.meta().spec_bits() == meta_bits,
            table.hashers() == seeded_family(seed, HASHER_COUNT as nat),
    {
        ThreeAryCuckoo {
            hashers: hasher_family(HASHER_COUNT, Some(seed)),
            buckets: empty_slots(capacity),
            meta: MetaMap::new(capacity, meta_bits),
            len: 0,
            rng: seeded_rng(seed),
        }
    }

    /// Settles a candidate bucket against two taken ones.
    fn settle_bucket(
        &self,
        key: u64,
        taken_a: usize,
        taken_b: usize,
        candidate: usize,
        from: usize,
    ) -> (settled: (usize, usize))
        requires
            self.shaped(),
            taken_a < self.slots().len(),
            taken_b < self.slots().len(),
            candidate < self.slots().len(),
            from <= self.hashers().len(),
        ensures
            (settled.0 as int, settled.1 as int) == settle(
                self.hashers(),
                key,
                self.slots().len() as int,
                taken_a as int,
                taken_b as int,
                candidate as int,
                from as int,
            ),
            settled.1 <= self.hashers().len(),
    {
        let capacity = self.buckets.len();
        let mut bucket = candidate;
        let mut hasher_index = from;
        while (bucket == taken_a || bucket == taken_b) && hasher_index < self.hashers.len()
            invariant
                self.shaped(),
                capacity == self.buckets.len(),
                hasher_index <= self.hashers.len(),
                bucket < capacity,
                settle(
                    self.hashers@,
                    key,
                    capacity as int,
                    taken_a as int,
                    taken_b as int,
                    candidate as int,
                    from as int,
                ) == settle(
                    self.hashers@,
                    key,
                    capacity as int,
                    taken_a as int,
                    taken_b as int,
                    bucket as int,
                    hasher_index as int,
                ),
            decreases self.hashers.len() - hasher_index,
        {
            let (_, next) = hash_to_bucket(&self.hashers[hasher_index], key, capacity);
            bucket = next;
            hasher_index += 1;
        }
        if bucket == taken_a || bucket == taken_b {
            bucket = spare_for(capacity, taken_a, taken_b);
        }
        (bucket, hasher_index)
    }

    /// The hash and the three buckets of a key.
    fn buckets(&self, key: u64) -> (info: (u64, usize, usize, usize))
        requires
            self.shaped(),
        ensures
            info.0 == self.hash_of(key),
            (info.1 as int, info.2 as int, info.3 as int) == self.alternatives(key),
            info.1 < self.slots().len(),
            info.2 < self.slots().len(),
            info.3 < self.slots().len(),
            info.1 != info.2,
            info.1 != info.3,
            info.2 != info.3,
    {
        let capacity = self.buckets.len();
        let (hash_a, bucket_a) = hash_to_bucket(&self.hashers[0], key, capacity);
        let (_, candidate_b) = hash_to_bucket(&self.hashers[1], key, capacity);
        let (_, candidate_c) = hash_to_bucket(&self.hashers[2], key, capacity);
        let (bucket_b, next) = self.settle_bucket(key, bucket_a, bucket_a, candidate_b, 3);
        proof {
            lemma_settle(
                self.hashers@,
                key,
                capacity as int,
                bucket_a as int,
                bucket_a as int,
                candidate_b as int,
                3,
            );
        }
        let (bucket_c, _) = self.settle_bucket(key, bucket_a, bucket_b, candidate_c, next);
        proof {
            lemma_alternatives(self.hashers@, key, capacity as int);
        }
        (hash_a, bucket_a, bucket_b, bucket_c)
    }

    /// Puts a key into a bucket and records its hash in the metadata.
    fn set_bucket(&mut self, bucket: usize, key: u64, hash: u64)
        requires
            old(self).shaped(),
            bucket < old(self).slots().len(),
        ensures
            final(self).shaped(),
            final(self).hashers() == old(self).hashers(),
            final(self).spec_len() == old(self).spec_len(),
            final(self).slots() == old(self).slots().update(bucket as int, Some(key)),
            final(self).meta().spec_bits() == old(self).meta().spec_bits(),
            final(self).meta()@ == old(self).meta()@.update(
                bucket as int,
                full_cell(Metadata::Hash(hash), old(self).meta().spec_bits()),
            ),
    {
        self.buckets.set(bucket, Some(key));
        self.meta.set_full(bucket, Metadata::Hash(hash));
    }

    /// Empties a bucket and its metadata cell.
    fn clear_bucket(&mut self, bucket: usize)
        requires
            old(self).shaped(),
            bucket < old(self).slots().len(),
        ensures
            final(self).shaped(),
            final(self).hashers() == old(self).hashers(),
            final(self).spec_len() == old(self).spec_len(),
            final(self).slots() == old(self).slots().update(bucket as int, None),
            final(self).meta().spec_bits() == old(self).meta().spec_bits(),
            final(self).meta()@ == old(self).meta()@.update(bucket as int, empty_cell()),
    {
        self.buckets.set(bucket, None);
        self.meta.set_empty(bucket);
    }

    /// The number of keys in the set.
    pub fn len(&self) -> (len: usize)
        requires
            self.wf(),
        ensures
            len == self@.len(),
            len == self.spec_len(),
            len <= self.slots().len(),
    {
        proof {
            lemma_keys_count(self.slots());
            lemma_occupied_bound(self.slots());
        }
        self.len
    }

    /// The number of buckets, fixed when the table was made.
    pub fn capacity(&self) -> (capacity: usize)
        ensures
            capacity == self.slots().len(),
    {
        self.buckets.len()
    }

    /// A key of the set sits in one of its three buckets, and the metadata
    /// does not rule it out there.
    pub proof fn lemma_where(&self, key: u64)
        requires
            self.wf(),
        ensures
            self@.contains(key) <==> (self.slots()[self.alternatives(key).0] == Some(key)
                || self.slots()[self.alternatives(key).1] == Some(key)
                || self.slots()[self.alternatives(key).2] == Some(key)),
            forall|i: int|
                0 <= i < self.slots().len() && self.slots()[i] == Some(key)
                    ==> !self.meta().rules_out(i, self.hash_of(key)),
    {
        let slots = self.slots();
        if self@.contains(key) {
            let i = choose|i: int| 0 <= i < slots.len() && #[trigger] slots[i] == Some(key);
            assert(among(i, self.alternatives(key)));
        }
        lemma_alternatives(self.hashers(), key, slots.len() as int);
        assert forall|i: int| 0 <= i < slots.len() && slots[i] == Some(key) implies !self.meta().rules_out(
            i,
            self.hash_of(key),
        ) by {
            assert(self.meta()@[i] == cell_for(self.hashers(), slots[i], self.meta().spec_bits()));
        }
    }

    /// What `probe` promises of a lookup of `key` in `table`.
    pub open spec fn probed(table: ThreeAryCuckoo, key: u64, probe: Probe) -> bool {
        &&& (probe.contained == table@.contains(key))
        &&& (probe.probes == table.probe_reads(key))
        &&& (probe.probes <= 3)
    }

    /// Looks a key up in its three buckets, reading a bucket only where the
    /// metadata does not rule the key out.
    pub fn probe(&self, key: u64) -> (probe: Probe)
        requires
            self.wf(),
        ensures
            ThreeAryCuckoo::probed(*self, key, probe),
    {
        let (hash, bucket_a, bucket_b, bucket_c) = self.buckets(key);
        let mut probes: usize = 0;
        proof {
            self.lemma_where(key);
        }
        if !self.meta.hint_not_match(bucket_a, hash) {
            probes += 1;
            if slot_is(&self.buckets[bucket_a], key) {
                return Probe { contained: true, probes };
            }
        }
        if !self.meta.hint_not_match(bucket_b, hash) {
            probes += 1;
            if slot_is(&self.buckets[bucket_b], key) {
                return Probe { contained: true, probes };
            }
        }
        if !self.meta.hint_not_match(bucket_c, hash) {
            probes += 1;
            if slot_is(&self.buckets[bucket_c], key) {
                return Probe { contained: true, probes };
            }
        }
        Probe { contained: false, probes }
    }

    /// Whether a bucket is empty, by the metadata where it can tell and by
    /// reading the bucket where the metadata has no bits.
    fn is_vacant(&self, bucket: usize, update: &mut Update) -> (vacant: bool)
        requires
            old(update).total_probes < usize::MAX,
            self.wf(),
            bucket < self.slots().len(),
        ensures
            vacant == (self.slots()[bucket as int] is None),
            final(update).total_writes == old(update).total_writes,
            final(update).completed == old(update).completed,
            final(update).total_probes == old(update).total_probes + if self.meta().spec_bits()
                == 0 {
                1nat
            } else {
                0nat
            },
    {
        proof {
            assert(self.meta()@[bucket as int] == cell_for(
                self.hashers(),
                self.slots()[bucket as int],
                self.meta().spec_bits(),
            ));
        }
        if self.meta.hint_empty(bucket) {
            true
        } else if self.meta.bits() == 0 {
            update.total_probes += 1;
            self.buckets[bucket].is_none()
        } else {
            false
        }
    }

    /// The chain that an insert of `key` starts with: the key, free to go to
    /// any of its three buckets, and nothing written or read yet.
    pub open spec fn chain_start(&self, key: u64) -> Chain {
        Chain { slots: self.slots(), active: key, barred: 3, writes: 0, reads: 0, done: false }
    }

    /// The exact outcome of an insert whose evictions follow `picks`. A key
    /// that is in the set is left where it is, at the cost of the reads of a
    /// lookup. For a new key the table and the counts are those of the
    /// eviction chain, after the reads of the lookup that did not find it; the
    /// insert completes where the chain has found a place when the picks run
    /// out.
    pub open spec fn insert_outcome(
        &self,
        key: u64,
        picks: Seq<usize>,
        after: ThreeAryCuckoo,
        update: Update,
    ) -> bool {
        if self@.contains(key) {
            &&& after.slots() == self.slots()
            &&& after.meta() == self.meta()
            &&& update.completed
            &&& update.total_writes == 0
            &&& update.total_probes == self.probe_reads(key)
        } else {
            let end = run(self.hashers(), self.meta().spec_bits(), self.chain_start(key), picks);
            &&& after.slots() == end.slots
            &&& update.completed == end.done
            &&& update.total_writes == end.writes
            &&& update.total_probes == self.probe_reads(key) + end.reads
        }
    }

    /// What `insert` promises: how the table `after` an insert of `key` relates to the
    /// table `before` it, and what the `update` reports, whatever the picks.
    pub open spec fn inserted(
        before: ThreeAryCuckoo,
        key: u64,
        after: ThreeAryCuckoo,
        update: Update,
    ) -> bool {
        &&& (after.wf())
        &&& (after.hashers() == before.hashers())
        &&& (after.slots().len() == before.slots().len())
        &&& (after.meta().spec_bits() == before.meta().spec_bits())
        &&& (before@.contains(key) ==> update.completed && update.total_writes == 0
            && after.slots() == before.slots() && after.meta() == before.meta())
        &&& (!before@.contains(key) && update.completed ==> after@ == before@.insert(key) && 1
            <= update.total_writes <= MAX_CHAIN)
        &&& (!before@.contains(key) ==> (before.first_empty(key) matches Some(bucket)
            ==> update.completed && update.total_writes == 1 && after.slots()
            == before.slots().update(bucket, Some(key))))
        &&& (!update.completed ==> update.total_writes == MAX_CHAIN && exists|lost: u64|
            before@.insert(key).contains(lost) && after@ == before@.insert(key).remove(lost))
        &&& (update.total_probes <= 3 * MAX_CHAIN + 3)
        &&& (exists|picks: Seq<usize>|
            picks.len() == MAX_CHAIN && #[trigger] before.insert_outcome(key, picks, after, update))
    }

    /// Looks for a key in its three buckets. Gives whether it is there and the
    /// number of buckets read.
    fn look_up(&self, key: u64, hash: u64, three: (usize, usize, usize)) -> (found: (bool, usize))
        requires
            self.wf(),
            hash == self.hash_of(key),
            (three.0 as int, three.1 as int, three.2 as int) == self.alternatives(key),
        ensures
            found.0 == self@.contains(key),
            found.1 == self.probe_reads(key),
            found.1 <= 3,
    {
        let mut probes: usize = 0;
        proof {
            self.lemma_where(key);
            lemma_alternatives(self.hashers(), key, self.slots().len() as int);
        }
        if !self.meta.hint_not_match(three.0, hash) {
            probes += 1;
            if slot_is(&self.buckets[three.0], key) {
                return (true, probes);
            }
        }
        if !self.meta.hint_not_match(three.1, hash) {
            probes += 1;
            if slot_is(&self.buckets[three.1], key) {
                return (true, probes);
            }
        }
        if !self.meta.hint_not_match(three.2, hash) {
            probes += 1;
            if slot_is(&self.buckets[three.2], key) {
                return (true, probes);
            }
        }
        (false, probes)
    }

    /// Places a key that is in none of its buckets, evicting as need be. The
    /// picks for the evictions are the given ones, or drawn at random where
    /// none are given. Gives the update and the picks that were used.
    #[verifier::rlimit(60)]
    fn chain(
        &mut self,
        key: u64,
        hash: u64,
        three: (usize, usize, usize),
        looks: usize,
        given: Option<&Vec<usize>>,
    ) -> (end: (Update, Ghost<Seq<usize>>))
        requires
            old(self).wf(),
            !old(self)@.contains(key),
            hash == old(self).hash_of(key),
            (three.0 as int, three.1 as int, three.2 as int) == old(self).alternatives(key),
            looks <= 3,
            given matches Some(picks) ==> picks.len() == MAX_CHAIN,
        ensures
            final(self).wf(),
            final(self).hashers() == old(self).hashers(),
            final(self).slots().len() == old(self).slots().len(),
            final(self).meta().spec_bits() == old(self).meta().spec_bits(),
            ({
                let update = end.0;
                let used = end.1@;
                let last = run(
                    old(self).hashers(),
                    old(self).meta().spec_bits(),
                    old(self).chain_start(key),
                    used,
                );
                &&& used.len() <= MAX_CHAIN
                &&& (last.done || used.len() == MAX_CHAIN)
                &&& (given matches Some(picks) ==> forall|i: int|
                    0 <= i < used.len() ==> used[i] == picks@[i])
                &&& final(self).slots() == last.slots
                &&& update.completed == last.done
                &&& update.total_writes == last.writes
                &&& update.total_probes == looks + last.reads
                &&& (update.completed ==> final(self)@ == old(self)@.insert(key) && 1
                    <= update.total_writes <= MAX_CHAIN)
                &&& (old(self).first_empty(key) matches Some(bucket) ==> update.completed
                    && update.total_writes == 1 && final(self).slots() == old(self).slots().update(
                    bucket,
                    Some(key),
                ))
                &&& (!update.completed ==> update.total_writes == MAX_CHAIN && exists|lost: u64|
                    old(self)@.insert(key).contains(lost) && final(self)@ == old(self)@.insert(
                        key,
                    ).remove(lost))
                &&& update.total_probes <= 3 * MAX_CHAIN + 3
            }),
    {
        let mut update = Update { total_probes: looks, total_writes: 0, completed: true };
        let ghost before = *self;
        let ghost start = self.chain_start(key);
        let ghost hashers = self.hashers();
        let ghost bits = self.meta().spec_bits();
        let ghost mut drawn: Seq<usize> = Seq::empty();
        let mut active_key = key;
        let mut active_hash = hash;
        let mut first = three.0;
        let mut second = three.1;
        let mut third = three.2;
        let mut barred: usize = 3;
        let mut steps: usize = 0;
        proof {
            lemma_alternatives(hashers, key, self.slots().len() as int);
        }
        while steps < MAX_CHAIN
            invariant
                before == *old(self),
                before.wf(),
                start == before.chain_start(key),
                hashers == before.hashers(),
                bits == before.meta().spec_bits(),
                self.wf(),
                self.hashers() == before.hashers(),
                self.slots().len() == before.slots().len(),
                self.meta().spec_bits() == before.meta().spec_bits(),
                steps <= MAX_CHAIN,
                looks <= 3,
                given matches Some(picks) ==> picks.len() == MAX_CHAIN,
                barred <= 3,
                (first as int, second as int, third as int) == self.alternatives(active_key),
                first < self.slots().len(),
                second < self.slots().len(),
                third < self.slots().len(),
                active_hash == self.hash_of(active_key),
                !holds(self.slots(), active_key),
                !before@.contains(key),
                steps == 0 ==> self.slots() == before.slots() && self.meta() == before.meta()
                    && active_key == key && barred == 3,
                steps > 0 ==> before@.insert(key).contains(active_key) && self@
                    == before@.insert(key).remove(active_key) && before.first_empty(key) is None,
                drawn.len() == steps,
                given matches Some(picks) ==> forall|i: int|
                    0 <= i < drawn.len() ==> drawn[i] == picks@[i],
                ({
                    let now = run(hashers, bits, start, drawn);
                    &&& !now.done
                    &&& now.slots == self.slots()
                    &&& now.active == active_key
                    &&& now.barred == barred
                    &&& now.writes == update.total_writes
                    &&& now.reads + looks == update.total_probes
                }),
                update.completed,
                update.total_writes == steps,
                update.total_probes <= 3 * steps + 3,
            decreases MAX_CHAIN - steps,
        {
            let ghost slots = self.slots();
            let ghost now = run(hashers, bits, start, drawn);
            let ghost alts = (first as int, second as int, third as int);
            let mut place: Option<usize> = None;
            if barred != 0 && self.is_vacant(first, &mut update) {
                place = Some(first);
            } else if barred != 1 && self.is_vacant(second, &mut update) {
                place = Some(second);
            } else if barred != 2 && self.is_vacant(third, &mut update) {
                place = Some(third);
            }
            if let Some(bucket) = place {
                proof {
                    assert(slots[bucket as int] is None);
                    lemma_keys_update(slots, bucket as int, Some(active_key));
                    lemma_occupied_update(slots, bucket as int, Some(active_key));
                    lemma_occupied_bound(slots);
                    let unused = if given is Some {
                        given->0@[steps as int]
                    } else {
                        0usize
                    };
                    let longer = drawn.push(unused);
                    assert(longer.drop_last() =~= drawn);
                    assert(run(hashers, bits, start, longer) == step(hashers, bits, now, unused));
                    drawn = longer;
                }
                assert(self.buckets.len() <= usize::MAX);
                self.set_bucket(bucket, active_key, active_hash);
                self.len += 1;
                update.total_writes += 1;
                proof {
                    assert(self@ =~= before@.insert(key));
                }
                return (update, Ghost(drawn));
            }
            let count: usize = if barred == 3 {
                3
            } else {
                2
            };
            let pick = match given {
                Some(picks) => picks[steps],
                None => random_below(&mut self.rng, count),
            };
            let evict_bucket = victim(first, second, third, barred, pick);
            if self.meta.bits() > 0 {
                update.total_probes += 1;
            }
            match self.buckets[evict_bucket] {
                None => {
                    // Unreachable: the buckets the key may go to were just found taken.
                    assert(false);
                },
                Some(swap_key) => {
                    proof {
                        lemma_holds_at(slots, evict_bucket as int, swap_key);
                        lemma_keys_update(slots, evict_bucket as int, Some(active_key));
                        lemma_occupied_update(slots, evict_bucket as int, Some(active_key));
                    }
                    self.set_bucket(evict_bucket, active_key, active_hash);
                    update.total_writes += 1;
                    let (swap_hash, swap_a, swap_b, swap_c) = self.buckets(swap_key);
                    proof {
                        assert(self@ =~= before@.insert(key).remove(swap_key));
                        assert(!holds(self.slots(), swap_key)) by {
                            assert(!self@.contains(swap_key));
                        }
                        assert(among(evict_bucket as int, self.alternatives(swap_key)));
                        let longer = drawn.push(pick);
                        assert(longer.drop_last() =~= drawn);
                        assert(run(hashers, bits, start, longer) == step(hashers, bits, now, pick));
                        drawn = longer;
                    }
                    barred = if evict_bucket == swap_a {
                        0
                    } else if evict_bucket == swap_b {
                        1
                    } else {
                        2
                    };
                    first = swap_a;
                    second = swap_b;
                    third = swap_c;
                    active_key = swap_key;
                    active_hash = swap_hash;
                },
            }
            steps += 1;
        }
        update.completed = false;
        (update, Ghost(drawn))
    }

    /// Adds a key. A key already in the set leaves the table as it is. A new
    /// key goes into the first of its three buckets that is empty. Where none
    /// is, it takes the place of the key in one of them, picked at random,
    /// and that key is placed in turn, in one of its other two buckets, for
    /// at most `MAX_CHAIN` evictions. When those run out, the key last evicted
    /// is dropped and the insert reports that it did not complete.
    pub fn insert(&mut self, key: u64) -> (update: Update)
        requires
            old(self).wf(),
        ensures
            ThreeAryCuckoo::inserted(*old(self), key, *final(self), update),
    {
        let (hash, bucket_a, bucket_b, bucket_c) = self.buckets(key);
        let (found, looks) = self.look_up(key, hash, (bucket_a, bucket_b, bucket_c));
        if found {
            proof {
                let picks = Seq::new(MAX_CHAIN as nat, |i: int| 0usize);
                assert(self.insert_outcome(key, picks, *self, (
                    Update { total_probes: looks, total_writes: 0, completed: true }
                )));
            }
            return Update { total_probes: looks, total_writes: 0, completed: true };
        }
        let (update, used) = self.chain(key, hash, (bucket_a, bucket_b, bucket_c), looks, None);
        proof {
            let before = *old(self);
            let rest = Seq::new((MAX_CHAIN - used@.len()) as nat, |i: int| 0usize);
            let picks = used@ + rest;
            let start = before.chain_start(key);
            if run(before.hashers(), before.meta().spec_bits(), start, used@).done {
                lemma_done_stays(before.hashers(), before.meta().spec_bits(), start, used@, rest);
            } else {
                assert(picks =~= used@);
            }
            assert(before.insert_outcome(key, picks, *self, update));
        }
        update
    }

    /// Adds a key as `insert` does, with the evictions picked by `picks` in
    /// place of random draws: the first eviction goes by the first pick, and so
    /// on. A pick counts through the buckets the evicting key may go to, modulo
    /// their number.
    pub fn insert_drawn(&mut self, key: u64, picks: &Vec<usize>) -> (update: Update)
        requires
            old(self).wf(),
            picks.len() == MAX_CHAIN,
        ensures
            ThreeAryCuckoo::inserted(*old(self), key, *final(self), update),
            old(self).insert_outcome(key, picks@, *final(self), update),
    {
        let (hash, bucket_a, bucket_b, bucket_c) = self.buckets(key);
        let (found, looks) = self.look_up(key, hash, (bucket_a, bucket_b, bucket_c));
        if found {
            proof {
                assert(self.insert_outcome(key, picks@, *self, (
                    Update { total_probes: looks, total_writes: 0, completed: true }
                )));
            }
            return Update { total_probes: looks, total_writes: 0, completed: true };
        }
        let (update, used) = self.chain(
            key,
            hash,
            (bucket_a, bucket_b, bucket_c),
            looks,
            Some(picks),
        );
        proof {
            let before = *old(self);
            let rest = picks@.subrange(used@.len() as int, MAX_CHAIN as int);
            let start = before.chain_start(key);
            assert(picks@ =~= used@ + rest);
            if run(before.hashers(), before.meta().spec_bits(), start, used@).done {
                lemma_done_stays(before.hashers(), before.meta().spec_bits(), start, used@, rest);
            }
            assert(before.insert_outcome(key, picks@, *self, update));
        }
        update
    }

    /// What `remove` promises: how the table `after` a removal of `key` relates to the
    /// table `before` it, and what the `update` reports.
    pub open spec fn removed(before: ThreeAryCuckoo, key: u64, after: ThreeAryCuckoo, update: Update) -> bool {
        &&& (after.wf())
        &&& (after.hashers() == before.hashers())
        &&& (after.slots().len() == before.slots().len())
        &&& (after.meta().spec_bits() == before.meta().spec_bits())
        &&& (after@ == before@.remove(key))
        &&& (update.completed)
        &&& (update.total_probes == before.probe_reads(key))
        &&& (update.total_writes == if before@.contains(key) {
                1usize
            } else {
                0usize
            })
        &&& (!before@.contains(key) ==> after.slots() == before.slots() && after.meta() == before.meta())
        &&& (forall|i: int|
            0 <= i < before.slots().len() ==> #[trigger] after.slots()[i] == if before.slots()[i]
                == Some(key) {
                None
            } else {
                before.slots()[i]
            })
    }

    /// Removes a key: clears the bucket that holds it, if one does.
    pub fn remove(&mut self, key: u64) -> (update: Update)
        requires
            old(self).wf(),
        ensures
            ThreeAryCuckoo::removed(*old(self), key, *final(self), update),
    {
        let (hash, bucket_a, bucket_b, bucket_c) = self.buckets(key);
        let mut update = Update { total_probes: 0, total_writes: 0, completed: true };
        let ghost slots = self.slots();
        proof {
            self.lemma_where(key);
            lemma_occupied_bound(slots);
        }
        if !self.meta.hint_not_match(bucket_a, hash) {
            update.total_probes += 1;
            if slot_is(&self.buckets[bucket_a], key) {
                proof {
                    lemma_keys_update(slots, bucket_a as int, None);
                    lemma_occupied_update(slots, bucket_a as int, None);
                }
                self.clear_bucket(bucket_a);
                self.len -= 1;
                update.total_writes += 1;
                return update;
            }
        }
        if !self.meta.hint_not_match(bucket_b, hash) {
            update.total_probes += 1;
            if slot_is(&self.buckets[bucket_b], key) {
                proof {
                    lemma_keys_update(slots, bucket_b as int, None);
                    lemma_occupied_update(slots, bucket_b as int, None);
                }
                self.clear_bucket(bucket_b);
                self.len -= 1;
                update.total_writes += 1;
                return update;
            }
        }
        if !self.meta.hint_not_match(bucket_c, hash) {
            update.total_probes += 1;
            if slot_is(&self.buckets[bucket_c], key) {
                proof {
                    lemma_keys_update(slots, bucket_c as int, None);
                    lemma_occupied_update(slots, bucket_c as int, None);
                }
                self.clear_bucket(bucket_c);
                self.len -= 1;
                update.total_writes += 1;
                return update;
            }
        }
        proof {
            assert(self@ =~= old(self)@.remove(key));
        }
        update
    }
}

impl ThreeAryCuckoo {
    /// The count of a table is the number of keys in its set, and no more
    /// than the number of buckets.
    pub proof fn law_len_counts_keys(table: ThreeAryCuckoo)
        requires
            table.wf(),
        ensures
            table@.finite(),
            table.spec_len() == table@.len(),
            table.spec_len() <= table.slots().len(),
    {
        lemma_keys_count(table.slots());
        lemma_occupied_bound(table.slots());
    }

    /// A key whose insert completed is found by the next lookup, which reads
    /// one bucket, two or three.
    pub proof fn law_inserted_key_is_found(
        before: ThreeAryCuckoo,
        key: u64,
        after: ThreeAryCuckoo,
        update: Update,
        probe: Probe,
    )
        requires
            before.wf(),
            ThreeAryCuckoo::inserted(before, key, after, update),
            update.completed,
            ThreeAryCuckoo::probed(after, key, probe),
        ensures
            probe.contained,
            1 <= probe.probes <= 3,
            probe.probes <= MAX_CHAIN,
    {
        after.lemma_where(key);
        lemma_alternatives(after.hashers(), key, after.slots().len() as int);
    }

    /// A key that is not in the set is not found.
    pub proof fn law_absent_key_is_not_found(table: ThreeAryCuckoo, key: u64, probe: Probe)
        requires
            table.wf(),
            !table@.contains(key),
            ThreeAryCuckoo::probed(table, key, probe),
        ensures
            !probe.contained,
    {
    }

    /// A key that was just removed is not found.
    pub proof fn law_removed_key_is_not_found(
        before: ThreeAryCuckoo,
        key: u64,
        after: ThreeAryCuckoo,
        update: Update,
        probe: Probe,
    )
        requires
            before.wf(),
            ThreeAryCuckoo::removed(before, key, after, update),
            ThreeAryCuckoo::probed(after, key, probe),
        ensures
            !probe.contained,
    {
    }

    /// Inserting a key again, after an insert of it that completed, completes,
    /// writes nothing and leaves the table and its count as they are.
    pub proof fn law_second_insert_changes_nothing(
        before: ThreeAryCuckoo,
        key: u64,
        between: ThreeAryCuckoo,
        first: Update,
        after: ThreeAryCuckoo,
        second: Update,
    )
        requires
            before.wf(),
            ThreeAryCuckoo::inserted(before, key, between, first),
            first.completed,
            ThreeAryCuckoo::inserted(between, key, after, second),
        ensures
            second.completed,
            second.total_writes == 0,
            after.slots() == between.slots(),
            after.meta() == between.meta(),
            after.spec_len() == between.spec_len(),
    {
    }

    /// Inserting a new key and removing it again gives back the set and the
    /// count, where the insert completed.
    pub proof fn law_insert_then_remove(
        before: ThreeAryCuckoo,
        key: u64,
        between: ThreeAryCuckoo,
        first: Update,
        after: ThreeAryCuckoo,
        second: Update,
    )
        requires
            before.wf(),
            !before@.contains(key),
            ThreeAryCuckoo::inserted(before, key, between, first),
            first.completed,
            ThreeAryCuckoo::removed(between, key, after, second),
        ensures
            after@ == before@,
            after.spec_len() == before.spec_len(),
            !after@.contains(key),
            second.completed,
            second.total_writes == 1,
    {
        assert(after@ =~= before@);
        ThreeAryCuckoo::law_len_counts_keys(before);
        ThreeAryCuckoo::law_len_counts_keys(after);
    }

    /// Every key sits in one of its three buckets.
    pub proof fn law_keys_sit_in_their_buckets(table: ThreeAryCuckoo, bucket: int, key: u64)
        requires
            table.wf(),
            0 <= bucket < table.slots().len(),
            table.slots()[bucket] == Some(key),
        ensures
            among(bucket, table.alternatives(key)),
    {
    }

    /// An insert that changes the table writes at least one bucket.
    pub proof fn law_change_costs_a_write(before: ThreeAryCuckoo, key: u64, after: ThreeAryCuckoo, update: Update)
        requires
            before.wf(),
            ThreeAryCuckoo::inserted(before, key, after, update),
            after.slots() != before.slots(),
        ensures
            update.total_writes >= 1,
    {
    }

    /// Lookups and counts depend on the set alone: two tables that hold the
    /// same keys give the same answers, whatever their hashers.
    pub proof fn law_same_keys_same_answers(
        one: ThreeAryCuckoo,
        other: ThreeAryCuckoo,
        key: u64,
        probe_one: Probe,
        probe_other: Probe,
    )
        requires
            one.wf(),
            other.wf(),
            one@ == other@,
            ThreeAryCuckoo::probed(one, key, probe_one),
            ThreeAryCuckoo::probed(other, key, probe_other),
        ensures
            probe_one.contained == probe_other.contained,
            one.spec_len() == other.spec_len(),
    {
        ThreeAryCuckoo::law_len_counts_keys(one);
        ThreeAryCuckoo::law_len_counts_keys(other);
    }

    /// Two tables that hold the same keys hold the same keys after the same
    /// insert, where it completes on both.
    pub proof fn law_same_keys_after_insert(
        one: ThreeAryCuckoo,
        other: ThreeAryCuckoo,
        key: u64,
        one_after: ThreeAryCuckoo,
        other_after: ThreeAryCuckoo,
        update_one: Update,
        update_other: Update,
    )
        requires
            one.wf(),
            other.wf(),
            one@ == other@,
            ThreeAryCuckoo::inserted(one, key, one_after, update_one),
            ThreeAryCuckoo::inserted(other, key, other_after, update_other),
            update_one.completed,
            update_other.completed,
        ensures
            one_after@ == other_after@,
            one_after.spec_len() == other_after.spec_len(),
    {
        ThreeAryCuckoo::law_len_counts_keys(one_after);
        ThreeAryCuckoo::law_len_counts_keys(other_after);
    }

    /// Two tables with the same hashers, the same buckets and the same
    /// metadata width are left with the same buckets by the same insert with
    /// the same picks, which reports the same on both.
    pub proof fn law_same_picks_same_outcome(
        one: ThreeAryCuckoo,
        other: ThreeAryCuckoo,
        key: u64,
        picks: Seq<usize>,
        one_after: ThreeAryCuckoo,
        other_after: ThreeAryCuckoo,
        update_one: Update,
        update_other: Update,
    )
        requires
            one.wf(),
            other.wf(),
            one.hashers() == other.hashers(),
            one.slots() == other.slots(),
            one.meta().spec_bits() == other.meta().spec_bits(),
            one.insert_outcome(key, picks, one_after, update_one),
            other.insert_outcome(key, picks, other_after, update_other),
        ensures
            update_one == update_other,
            one_after.slots() == other_after.slots(),
    {
        lemma_alternatives(one.hashers(), key, one.slots().len() as int);
        assert(one.meta()@ =~= other.meta()@);
    }

    /// Two tables with the same hashers, the same buckets and the same
    /// metadata width are left with the same buckets by the same removal,
    /// which reports the same on both.
    pub proof fn law_same_table_after_remove(
        one: ThreeAryCuckoo,
        other: ThreeAryCuckoo,
        key: u64,
        one_after: ThreeAryCuckoo,
        other_after: ThreeAryCuckoo,
        update_one: Update,
        update_other: Update,
    )
        requires
            one.wf(),
            other.wf(),
            one.hashers() == other.hashers(),
            one.slots() == other.slots(),
            one.meta().spec_bits() == other.meta().spec_bits(),
            ThreeAryCuckoo::removed(one, key, one_after, update_one),
            ThreeAryCuckoo::removed(other, key, other_after, update_other),
        ensures
            update_one == update_other,
            one_after.slots() == other_after.slots(),
    {
        lemma_alternatives(one.hashers(), key, one.slots().len() as int);
        assert(one.meta()@ =~= other.meta()@);
        assert(one_after.slots() =~= other_after.slots());
    }

    /// Two tables with the same hashers, the same buckets and the same
    /// metadata width answer the same lookup alike, reads included.
    pub proof fn law_same_table_same_probe(
        one: ThreeAryCuckoo,
        other: ThreeAryCuckoo,
        key: u64,
        probe_one: Probe,
        probe_other: Probe,
    )
        requires
            one.wf(),
            other.wf(),
            one.hashers() == other.hashers(),
            one.slots() == other.slots(),
            one.meta().spec_bits() == other.meta().spec_bits(),
            ThreeAryCuckoo::probed(one, key, probe_one),
            ThreeAryCuckoo::probed(other, key, probe_other),
        ensures
            probe_one == probe_other,
    {
        lemma_alternatives(one.hashers(), key, one.slots().len() as int);
        assert(one.meta()@ =~= other.meta()@);
    }

    /// Whether `states`, `steps`, `picks` and `updates` tell one history of a
    /// table: each step, an insert where its flag is set and a removal where
    /// it is not, leads from one state to the next and reports its update,
    /// and an insert evicts by the picks that go with its step.
    pub open spec fn history(
        states: Seq<ThreeAryCuckoo>,
        steps: Seq<(bool, u64)>,
        picks: Seq<Seq<usize>>,
        updates: Seq<Update>,
    ) -> bool {
        &&& states.len() == steps.len() + 1
        &&& updates.len() == steps.len()
        &&& picks.len() == steps.len()
        &&& forall|i: int|
            0 <= i < steps.len() ==> if (#[trigger] steps[i]).0 {
                ThreeAryCuckoo::inserted(states[i], steps[i].1, states[i + 1], updates[i])
                    && states[i].insert_outcome(steps[i].1, picks[i], states[i + 1], updates[i])
            } else {
                ThreeAryCuckoo::removed(states[i], steps[i].1, states[i + 1], updates[i])
            }
    }

    /// Two histories of the same steps and picks that start alike stay alike
    /// up to step `upto`.
    proof fn lemma_histories_agree(
        steps: Seq<(bool, u64)>,
        picks: Seq<Seq<usize>>,
        one: Seq<ThreeAryCuckoo>,
        other: Seq<ThreeAryCuckoo>,
        updates_one: Seq<Update>,
        updates_other: Seq<Update>,
        upto: int,
    )
        requires
            ThreeAryCuckoo::history(one, steps, picks, updates_one),
            ThreeAryCuckoo::history(other, steps, picks, updates_other),
            one[0].wf(),
            other[0].wf(),
            one[0].hashers() == other[0].hashers(),
            one[0].slots() == other[0].slots(),
            one[0].meta().spec_bits() == other[0].meta().spec_bits(),
            0 <= upto <= steps.len(),
        ensures
            one[upto].wf(),
            other[upto].wf(),
            one[upto].hashers() == other[upto].hashers(),
            one[upto].slots() == other[upto].slots(),
            one[upto].meta().spec_bits() == other[upto].meta().spec_bits(),
            forall|i: int| 0 <= i < upto ==> updates_one[i] == updates_other[i],
        decreases upto,
    {
        if upto > 0 {
            let last = upto - 1;
            ThreeAryCuckoo::lemma_histories_agree(
                steps,
                picks,
                one,
                other,
                updates_one,
                updates_other,
                last,
            );
            let step = steps[last];
            if step.0 {
                ThreeAryCuckoo::law_same_picks_same_outcome(
                    one[last],
                    other[last],
                    step.1,
                    picks[last],
                    one[last + 1],
                    other[last + 1],
                    updates_one[last],
                    updates_other[last],
                );
            } else {
                ThreeAryCuckoo::law_same_table_after_remove(
                    one[last],
                    other[last],
                    step.1,
                    one[last + 1],
                    other[last + 1],
                    updates_one[last],
                    updates_other[last],
                );
            }
        }
    }

    /// Two tables built with the same capacity, metadata width and seed, and
    /// then taken through the same inserts and removals with the same picks,
    /// report the same updates and hold the same buckets, the same keys and
    /// the same count after every step.
    pub proof fn law_same_seed_same_history(
        seed: u64,
        steps: Seq<(bool, u64)>,
        picks: Seq<Seq<usize>>,
        one: Seq<ThreeAryCuckoo>,
        other: Seq<ThreeAryCuckoo>,
        updates_one: Seq<Update>,
        updates_other: Seq<Update>,
    )
        requires
            ThreeAryCuckoo::history(one, steps, picks, updates_one),
            ThreeAryCuckoo::history(other, steps, picks, updates_other),
            one[0].wf(),
            other[0].wf(),
            one[0].hashers() == seeded_family(seed, HASHER_COUNT as nat),
            other[0].hashers() == seeded_family(seed, HASHER_COUNT as nat),
            one[0].slots() == other[0].slots(),
            one[0].meta().spec_bits() == other[0].meta().spec_bits(),
        ensures
            updates_one == updates_other,
            forall|i: int|
                0 <= i <= steps.len() ==> (#[trigger] one[i]).slots() == other[i].slots()
                    && one[i]@ == other[i]@ && one[i].spec_len() == other[i].spec_len(),
    {
        assert forall|i: int| 0 <= i <= steps.len() implies (#[trigger] one[i]).slots()
            == other[i].slots() && one[i]@ == other[i]@ && one[i].spec_len()
            == other[i].spec_len() by {
            ThreeAryCuckoo::lemma_histories_agree(steps, picks, one, other, updates_one, updates_other, i);
            ThreeAryCuckoo::law_len_counts_keys(one[i]);
            ThreeAryCuckoo::law_len_counts_keys(other[i]);
        }
        ThreeAryCuckoo::lemma_histories_agree(
            steps,
            picks,
            one,
            other,
            updates_one,
            updates_other,
            steps.len() as int,
        );
        assert(updates_one =~= updates_other);
    }

    /// An insert of a new key into a table without an empty bucket does not
    /// complete: one key of the set, or the new key, is dropped, and the count
    /// stays.
    pub proof fn law_full_table_rejects(before: ThreeAryCuckoo, key: u64, after: ThreeAryCuckoo, update: Update)
        requires
            before.wf(),
            before.spec_len() == before.slots().len(),
            !before@.contains(key),
            ThreeAryCuckoo::inserted(before, key, after, update),
        ensures
            !update.completed,
            after.spec_len() == before.spec_len(),
    {
        ThreeAryCuckoo::law_len_counts_keys(before);
        ThreeAryCuckoo::law_len_counts_keys(after);
        if !update.completed {
            let lost = choose|lost: u64|
                before@.insert(key).contains(lost) && after@ == before@.insert(key).remove(lost);
            assert(before@.insert(key).remove(lost).len() == before@.len());
        }
    }

    /// Removing a key that is not in the set completes, writes nothing and
    /// leaves the table as it is.
    pub proof fn law_remove_of_absent_key(before: ThreeAryCuckoo, key: u64, after: ThreeAryCuckoo, update: Update)
        requires
            before.wf(),
            !before@.contains(key),
            ThreeAryCuckoo::removed(before, key, after, update),
        ensures
            update.completed,
            update.total_writes == 0,
            after.slots() == before.slots(),
            after.meta() == before.meta(),
    {
    }

    /// Metadata never adds a read: a lookup in a table without metadata bits
    /// reads at least as many buckets as a lookup in a table with the same
    /// buckets and any metadata, and both give the same answer.
    pub proof fn law_metadata_saves_reads(
        blind: ThreeAryCuckoo,
        sighted: ThreeAryCuckoo,
        key: u64,
        probe_blind: Probe,
        probe_sighted: Probe,
    )
        requires
            blind.wf(),
            sighted.wf(),
            blind.hashers() == sighted.hashers(),
            blind.slots() == sighted.slots(),
            blind.meta().spec_bits() == 0,
            ThreeAryCuckoo::probed(blind, key, probe_blind),
            ThreeAryCuckoo::probed(sighted, key, probe_sighted),
        ensures
            probe_sighted.contained == probe_blind.contained,
            probe_sighted.probes <= probe_blind.probes,
    {
    }
}

} // verus!
