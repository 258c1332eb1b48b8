//! Linear probing with Robin-Hood displacement and backward-shift deletion.
//!
//! The probe-sequence length of a key in a bucket is its distance from the
//! key's home bucket, counted from 1 and around the end of the table. An
//! insert walks forward from the home and takes the place of the first key
//! that is closer to its own home; the key it displaces walks on in turn.

use crate::hashing::{bucket_of, hash_to_bucket, keyed_hash, seeded_member};
use crate::meta_map::{
    empty_cell, full_cell, lemma_payload_cap, payload_cap, MetaMap, Metadata, PslHint,
    MAX_META_BITS,
};
use crate::slots::{
    distinct, empty_slots, holds, keys_of, lemma_holds_at, lemma_keys_count, lemma_keys_update,
    lemma_occupied_bound, lemma_occupied_update, next_bucket, occupied, predecessor, successor,
};
use crate::telemetry::{Probe, Update, MAX_CHAIN};
use ahash::RandomState;
use vstd::prelude::*;

verus! {

/// The number of steps forward from one bucket to another, around the end of
/// the table.
pub open spec fn distance(from: int, to: int, capacity: int) -> int {
    if to >= from {
        to - from
    } else {
        to + capacity - from
    }
}

/// The bucket a number of steps forward from `home`, around the end of the
/// table.
pub open spec fn offset(home: int, steps: int, capacity: int) -> int {
    if home + steps < capacity {
        home + steps
    } else {
        home + steps - capacity
    }
}

/// The probe-sequence length a key would have in a bucket.
pub open spec fn psl_at(hasher: RandomState, key: u64, bucket: int, capacity: int) -> int {
    1 + distance(bucket_of(hasher, key, capacity), bucket, capacity)
}

/// The probe-sequence length of the key in a slot; 0 for an empty slot.
pub open spec fn slot_psl(hasher: RandomState, slots: Seq<Option<u64>>, bucket: int) -> int {
    match slots[bucket] {
        Some(key) => psl_at(hasher, key, bucket, slots.len() as int),
        None => 0,
    }
}

/// The key in a bucket is at most one step further from its home than the
/// key in the bucket before it.
pub open spec fn ordered_at(hasher: RandomState, slots: Seq<Option<u64>>, bucket: int) -> bool {
    slot_psl(hasher, slots, bucket) <= slot_psl(
        hasher,
        slots,
        predecessor(bucket, slots.len() as int),
    ) + 1
}

/// The Robin-Hood order holds at every bucket.
pub open spec fn ordered(hasher: RandomState, slots: Seq<Option<u64>>) -> bool {
    forall|i: int| 0 <= i < slots.len() ==> #[trigger] ordered_at(hasher, slots, i)
}

/// The metadata cell that goes with a slot: empty for an empty slot, full
/// with the key's probe-sequence length for a slot with a key.
pub open spec fn cell_for(hasher: RandomState, slots: Seq<Option<u64>>, bucket: int, bits: nat) -> (
    bool,
    nat,
) {
    match slots[bucket] {
        Some(key) => full_cell(
            Metadata::Psl(psl_at(hasher, key, bucket, slots.len() as int) as usize),
            bits,
        ),
        None => empty_cell(),
    }
}

/// Every metadata cell goes with its slot.
pub open spec fn cells_ok(
    hasher: RandomState,
    slots: Seq<Option<u64>>,
    cells: Seq<(bool, nat)>,
    bits: nat,
) -> bool {
    &&& cells.len() == slots.len()
    &&& forall|i: int| 0 <= i < slots.len() ==> #[trigger] cells[i] == cell_for(hasher, slots, i, bits)
}

/// Some bucket is empty or holds a key at its home.
pub open spec fn anchored(hasher: RandomState, slots: Seq<Option<u64>>) -> bool {
    exists|b: int| 0 <= b < slots.len() && #[trigger] slot_psl(hasher, slots, b) <= 1
}

/// The state of a table while a removal shifts keys back: the hole is empty,
/// the order holds everywhere but just after the hole, and the key after the
/// hole is at most two steps further from its home than the key before it.
pub open spec fn shifting(hasher: RandomState, slots: Seq<Option<u64>>, hole: int) -> bool {
    let capacity = slots.len() as int;
    &&& slots[hole] is None
    &&& forall|i: int|
        0 <= i < capacity && i != successor(hole, capacity) ==> #[trigger] ordered_at(
            hasher,
            slots,
            i,
        )
    &&& slot_psl(hasher, slots, successor(hole, capacity)) <= slot_psl(
        hasher,
        slots,
        predecessor(hole, capacity),
    ) + 2
}

/// The hint that metadata of the given width gives for a bucket whose key has
/// the probe-sequence length `stored`, 0 standing for an empty bucket. Without
/// bits the hint is "1 or more" for every bucket; with one bit it is that for
/// every key; with more, the length itself under the payload cap, and the cap
/// as a lower bound from there on.
pub open spec fn hint_for(stored: int, bits: nat) -> Option<PslHint> {
    if bits == 0 {
        Some(PslHint::AtLeast(1))
    } else if stored <= 0 {
        None
    } else if bits == 1 {
        Some(PslHint::AtLeast(1))
    } else if stored >= payload_cap(bits) {
        Some(PslHint::AtLeast(payload_cap(bits) as usize))
    } else {
        Some(PslHint::Exact(stored as usize))
    }
}

/// The length a hint speaks of.
pub open spec fn hint_length(hint: PslHint) -> int {
    match hint {
        PslHint::Exact(length) => length as int,
        PslHint::AtLeast(length) => length as int,
    }
}

/// A lookup of `key` from the step `steps` of its walk on: the bucket that
/// holds the key, if one does, and the number of buckets read. At each step
/// the key would have the length `steps + 1`. The walk ends without the key at
/// a bucket that the hint shows empty or shows to hold a key with a shorter
/// length; it passes a bucket unread whose hint speaks of a longer length;
/// any other bucket it reads, and ends at it if the bucket is empty, holds the
/// key, or holds a key with a shorter length.
pub open spec fn seek(
    hasher: RandomState,
    slots: Seq<Option<u64>>,
    bits: nat,
    key: u64,
    steps: int,
) -> (Option<int>, nat)
    decreases slots.len() - steps,
{
    let capacity = slots.len() as int;
    let bucket = offset(bucket_of(hasher, key, capacity), steps, capacity);
    let psl = steps + 1;
    let stored = slot_psl(hasher, slots, bucket);
    if steps < 0 || steps >= capacity {
        (None, 0nat)
    } else {
        match hint_for(stored, bits) {
            None => (None, 0nat),
            Some(hint) => {
                if hint is Exact && hint_length(hint) < psl {
                    (None, 0nat)
                } else if hint_length(hint) > psl {
                    seek(hasher, slots, bits, key, steps + 1)
                } else if slots[bucket] is None {
                    (None, 1nat)
                } else if slots[bucket] == Some(key) {
                    (Some(bucket), 1nat)
                } else if stored < psl {
                    (None, 1nat)
                } else {
                    let rest = seek(hasher, slots, bits, key, steps + 1);
                    (rest.0, rest.1 + 1)
                }
            },
        }
    }
}

/// Where a walk that moves keys ends: the buckets it leaves, the buckets it
/// wrote and read, and whether it came to an end within its moves.
pub struct Walk {
    pub slots: Seq<Option<u64>>,
    pub writes: nat,
    pub reads: nat,
    pub completed: bool,
}

/// The walk of an insert that carries `active`, which would have the length
/// `psl` in `bucket`, with `moves` moves left. A bucket that the hint shows
/// empty takes the key, unread. A bucket whose hint speaks of a longer length
/// is passed, unread. Any other bucket is read: an empty one takes the key; one
/// that holds the key ends the walk; a key with a shorter length gives way to
/// the carried key and is carried on in its stead; any other key is passed.
pub open spec fn carry(
    hasher: RandomState,
    slots: Seq<Option<u64>>,
    bits: nat,
    active: u64,
    psl: int,
    bucket: int,
    moves: nat,
) -> Walk
    decreases moves,
{
    let capacity = slots.len() as int;
    let stored = slot_psl(hasher, slots, bucket);
    let next = successor(bucket, capacity);
    let placed = slots.update(bucket, Some(active));
    if moves == 0 {
        Walk { slots, writes: 0, reads: 0, completed: false }
    } else {
        match hint_for(stored, bits) {
            None => Walk { slots: placed, writes: 1, reads: 0, completed: true },
            Some(hint) => {
                if hint_length(hint) > psl {
                    carry(hasher, slots, bits, active, psl + 1, next, (moves - 1) as nat)
                } else if slots[bucket] is None {
                    Walk { slots: placed, writes: 1, reads: 1, completed: true }
                } else if slots[bucket] == Some(active) {
                    Walk { slots, writes: 0, reads: 1, completed: true }
                } else if stored < psl {
                    let rest = carry(
                        hasher,
                        placed,
                        bits,
                        slots[bucket]->0,
                        stored + 1,
                        next,
                        (moves - 1) as nat,
                    );
                    Walk {
                        slots: rest.slots,
                        writes: rest.writes + 1,
                        reads: rest.reads + 1,
                        completed: rest.completed,
                    }
                } else {
                    let rest = carry(
                        hasher,
                        slots,
                        bits,
                        active,
                        psl + 1,
                        next,
                        (moves - 1) as nat,
                    );
                    Walk {
                        slots: rest.slots,
                        writes: rest.writes,
                        reads: rest.reads + 1,
                        completed: rest.completed,
                    }
                }
            },
        }
    }
}

/// The walk of a removal that has left the bucket `hole` empty, with `moves`
/// moves left. The walk ends at a bucket that the hint shows empty or to hold
/// a key at its home, unread. Any other bucket after the hole is read: the walk
/// ends if it is empty or holds a key at its home; any other key moves back
/// into the hole, at the cost of two writes, and leaves the hole behind it.
pub open spec fn shift(
    hasher: RandomState,
    slots: Seq<Option<u64>>,
    bits: nat,
    hole: int,
    moves: nat,
) -> Walk
    decreases moves,
{
    let capacity = slots.len() as int;
    let next = successor(hole, capacity);
    let stored = slot_psl(hasher, slots, next);
    if moves == 0 {
        Walk { slots, writes: 0, reads: 0, completed: false }
    } else {
        match hint_for(stored, bits) {
            None => Walk { slots, writes: 0, reads: 0, completed: true },
            Some(hint) => {
                if hint == PslHint::Exact(1) {
                    Walk { slots, writes: 0, reads: 0, completed: true }
                } else if stored <= 1 {
                    Walk { slots, writes: 0, reads: 1, completed: true }
                } else {
                    let rest = shift(
                        hasher,
                        slots.update(next, None).update(hole, slots[next]),
                        bits,
                        next,
                        (moves - 1) as nat,
                    );
                    Walk {
                        slots: rest.slots,
                        writes: rest.writes + 2,
                        reads: rest.reads + 1,
                        completed: rest.completed,
                    }
                }
            },
        }
    }
}

/// A probe-sequence length lies between 1 and the capacity.
pub proof fn lemma_psl_range(hasher: RandomState, key: u64, bucket: int, capacity: int)
    requires
        0 <= bucket < capacity,
    ensures
        1 <= psl_at(hasher, key, bucket, capacity) <= capacity,
        0 <= bucket_of(hasher, key, capacity) < capacity,
        offset(
            bucket_of(hasher, key, capacity),
            psl_at(hasher, key, bucket, capacity) - 1,
            capacity,
        ) == bucket,
{
    vstd::arithmetic::div_mod::lemma_mod_bound(keyed_hash(hasher, key) as int, capacity);
}

/// Along a run that reaches `reach` steps from a home, every bucket holds a
/// key at least as far from its own home as the bucket is from this one.
pub proof fn lemma_run(
    hasher: RandomState,
    slots: Seq<Option<u64>>,
    home: int,
    reach: int,
    at: int,
)
    requires
        ordered(hasher, slots),
        0 <= home < slots.len(),
        0 <= at <= reach < slots.len(),
        slot_psl(hasher, slots, offset(home, reach, slots.len() as int)) >= reach + 1,
    ensures
        slot_psl(hasher, slots, offset(home, at, slots.len() as int)) >= at + 1,
    decreases reach - at,
{
    if at < reach {
        let capacity = slots.len() as int;
        lemma_run(hasher, slots, home, reach, at + 1);
        assert(ordered_at(hasher, slots, offset(home, at + 1, capacity)));
        assert(predecessor(offset(home, at + 1, capacity), capacity) == offset(
            home,
            at,
            capacity,
        ));
    }
}

/// A key is not in the table when it is in none of the first `steps` buckets
/// from its home and the next bucket holds a key closer to its own home, or
/// none.
proof fn lemma_absent(hasher: RandomState, slots: Seq<Option<u64>>, key: u64, steps: int)
    requires
        ordered(hasher, slots),
        0 <= steps < slots.len(),
        forall|e: int|
            0 <= e < steps ==> slots[#[trigger] offset(
                bucket_of(hasher, key, slots.len() as int),
                e,
                slots.len() as int,
            )] != Some(key),
        slot_psl(
            hasher,
            slots,
            offset(bucket_of(hasher, key, slots.len() as int), steps, slots.len() as int),
        ) < steps + 1,
    ensures
        !holds(slots, key),
{
    let capacity = slots.len() as int;
    let home = bucket_of(hasher, key, capacity);
    if holds(slots, key) {
        let i = choose|i: int| 0 <= i < slots.len() && #[trigger] slots[i] == Some(key);
        lemma_psl_range(hasher, key, i, capacity);
        let reach = psl_at(hasher, key, i, capacity) - 1;
        assert(offset(home, reach, capacity) == i);
        if reach >= steps {
            lemma_run(hasher, slots, home, reach, steps);
        }
    }
}

/// A key is not in the table when it is in none of the buckets.
proof fn lemma_absent_everywhere(hasher: RandomState, slots: Seq<Option<u64>>, key: u64)
    requires
        slots.len() > 0,
        forall|e: int|
            0 <= e < slots.len() ==> slots[#[trigger] offset(
                bucket_of(hasher, key, slots.len() as int),
                e,
                slots.len() as int,
            )] != Some(key),
    ensures
        !holds(slots, key),
{
    let capacity = slots.len() as int;
    let home = bucket_of(hasher, key, capacity);
    vstd::arithmetic::div_mod::lemma_mod_bound(keyed_hash(hasher, key) as int, capacity);
    if holds(slots, key) {
        let i = choose|i: int| 0 <= i < slots.len() && #[trigger] slots[i] == Some(key);
        assert(offset(home, distance(home, i, capacity), capacity) == i);
    }
}

/// The hint of a bucket whose cell goes with its slot is the hint for the
/// length of the key in the slot.
proof fn lemma_hint(
    hasher: RandomState,
    slots: Seq<Option<u64>>,
    meta: MetaMap,
    bucket: int,
)
    requires
        meta.wf(),
        cells_ok(hasher, slots, meta@, meta.spec_bits()),
        0 <= bucket < slots.len(),
        slots.len() <= usize::MAX,
    ensures
        meta.psl_hint(bucket) == hint_for(slot_psl(hasher, slots, bucket), meta.spec_bits()),
        match meta.psl_hint(bucket) {
            None => slots[bucket] is None,
            Some(PslHint::Exact(psl)) => slots[bucket] is Some && psl == slot_psl(
                hasher,
                slots,
                bucket,
            ),
            Some(PslHint::AtLeast(psl)) => psl >= 1 && (if meta.spec_bits() == 0 {
                psl == 1
            } else {
                slots[bucket] is Some && psl <= slot_psl(hasher, slots, bucket)
            }),
        },
{
    meta.lemma_cells();
    let bits = meta.spec_bits();
    assert(meta@[bucket] == cell_for(hasher, slots, bucket, bits));
    if bits >= 2 {
        lemma_payload_cap(bits);
    }
    match slots[bucket] {
        Some(key) => {
            lemma_psl_range(hasher, key, bucket, slots.len() as int);
        },
        None => {},
    }
}

/// Putting a key into a bucket keeps the order, where the key is no closer to
/// its home than the slot's old content and at most one step further than the
/// key before it.
proof fn lemma_store_keeps_order(hasher: RandomState, slots: Seq<Option<u64>>, bucket: int, key: u64)
    requires
        ordered(hasher, slots),
        0 <= bucket < slots.len(),
        psl_at(hasher, key, bucket, slots.len() as int) >= slot_psl(hasher, slots, bucket),
        psl_at(hasher, key, bucket, slots.len() as int) <= slot_psl(
            hasher,
            slots,
            predecessor(bucket, slots.len() as int),
        ) + 1 || slots.len() == 1,
    ensures
        ordered(hasher, slots.update(bucket, Some(key))),
{
    let capacity = slots.len() as int;
    let after = slots.update(bucket, Some(key));
    assert forall|i: int| 0 <= i < after.len() implies #[trigger] ordered_at(hasher, after, i) by {
        assert(ordered_at(hasher, slots, i));
    }
}

/// Putting a key into a bucket leaves some bucket empty or with a key at its
/// home, where a bucket `spare` was empty before and the bucket after it is
/// empty or holds a key at its home: either `spare` stays empty, or the
/// bucket after it stays as it was.
proof fn lemma_anchor_stays(
    hasher: RandomState,
    slots: Seq<Option<u64>>,
    bucket: int,
    key: u64,
    spare: int,
)
    requires
        0 <= bucket < slots.len(),
        0 <= spare < slots.len(),
        slots[spare] is None,
        slot_psl(hasher, slots, successor(spare, slots.len() as int)) <= 1,
        bucket == successor(spare, slots.len() as int) ==> psl_at(
            hasher,
            key,
            bucket,
            slots.len() as int,
        ) <= 1,
    ensures
        anchored(hasher, slots.update(bucket, Some(key))),
        bucket != spare ==> slot_psl(
            hasher,
            slots.update(bucket, Some(key)),
            successor(spare, slots.len() as int),
        ) <= 1,
{
    let after = slots.update(bucket, Some(key));
    let next = successor(spare, slots.len() as int);
    if bucket != spare {
        assert(slot_psl(hasher, after, spare) <= 1);
    } else {
        assert(slot_psl(hasher, after, next) <= 1);
    }
}

/// Emptying a bucket of an ordered table starts a shift at that bucket.
proof fn lemma_clear_starts_shift(hasher: RandomState, slots: Seq<Option<u64>>, bucket: int)
    requires
        ordered(hasher, slots),
        0 <= bucket < slots.len(),
        slots[bucket] is Some,
    ensures
        shifting(hasher, slots.update(bucket, None), bucket),
{
    let capacity = slots.len() as int;
    let after = slots.update(bucket, None);
    let key = slots[bucket]->0;
    lemma_psl_range(hasher, key, bucket, capacity);
    assert forall|i: int|
        0 <= i < capacity && i != successor(bucket, capacity) implies #[trigger] ordered_at(
        hasher,
        after,
        i,
    ) by {
        assert(ordered_at(hasher, slots, i));
    }
    assert(ordered_at(hasher, slots, bucket));
    assert(ordered_at(hasher, slots, successor(bucket, capacity)));
}

/// Moving the key after the hole into the hole moves the hole one step on.
proof fn lemma_shift_step(hasher: RandomState, slots: Seq<Option<u64>>, hole: int)
    requires
        shifting(hasher, slots, hole),
        0 <= hole < slots.len(),
        slot_psl(hasher, slots, successor(hole, slots.len() as int)) >= 2,
    ensures
        ({
            let next = successor(hole, slots.len() as int);
            let key = slots[next]->0;
            let after = slots.update(next, None).update(hole, Some(key));
            &&& next != hole
            &&& shifting(hasher, after, next)
            &&& psl_at(hasher, key, hole, slots.len() as int) + 1 == psl_at(
                hasher,
                key,
                next,
                slots.len() as int,
            )
        }),
{
    let capacity = slots.len() as int;
    let next = successor(hole, capacity);
    let key = slots[next]->0;
    let after = slots.update(next, None).update(hole, Some(key));
    lemma_psl_range(hasher, key, next, capacity);
    lemma_psl_range(hasher, key, hole, capacity);
    assert forall|i: int|
        0 <= i < capacity && i != successor(next, capacity) implies #[trigger] ordered_at(
        hasher,
        after,
        i,
    ) by {
        if i != next && i != hole {
            assert(ordered_at(hasher, slots, i));
        }
    }
    let beyond = successor(next, capacity);
    if beyond != hole && beyond != next {
        assert(ordered_at(hasher, slots, beyond));
    }
}

/// When the key after the hole is at its home, or there is none, the shift is
/// over and the order holds everywhere.
proof fn lemma_shift_ends(hasher: RandomState, slots: Seq<Option<u64>>, hole: int)
    requires
        shifting(hasher, slots, hole),
        0 <= hole < slots.len(),
        slot_psl(hasher, slots, successor(hole, slots.len() as int)) <= 1,
    ensures
        ordered(hasher, slots),
{
}

/// A hash set of `u64` keys kept in Robin-Hood order.
pub struct RobinHood {
    hasher: RandomState,
    buckets: Vec<Option<u64>>,
    meta: MetaMap,
    len: usize,
}

impl View for RobinHood {
    type V = Set<u64>;

    open spec fn view(&self) -> Set<u64> {
        keys_of(self.slots())
    }
}

impl RobinHood {
    /// The buckets, in order.
    pub closed spec fn slots(&self) -> Seq<Option<u64>> {
        self.buckets@
    }

    /// The hasher state that gives every key its home bucket.
    pub closed spec fn hasher(&self) -> RandomState {
        self.hasher
    }

    /// The metadata sidecar.
    pub closed spec fn meta(&self) -> MetaMap {
        self.meta
    }

    /// The number of keys the table counts.
    pub closed spec fn spec_len(&self) -> nat {
        self.len as nat
    }

    /// The home bucket of a key.
    pub open spec fn home(&self, key: u64) -> int {
        bucket_of(self.hasher(), key, self.slots().len() as int)
    }

    /// The table has at least one bucket and one metadata cell per bucket.
    pub open spec fn shaped(&self) -> bool {
        &&& self.slots().len() >= 1
        &&& 2 * self.slots().len() <= usize::MAX
        &&& self.meta().wf()
        &&& self.meta()@.len() == self.slots().len()
    }

    /// The invariant of the table: the count is right, no key sits twice,
    /// the metadata goes with the buckets, the Robin-Hood order holds, and some
    /// bucket is empty or holds a key at its home.
    pub open spec fn wf(&self) -> bool {
        &&& self.shaped()
        &&& self.spec_len() == occupied(self.slots())
        &&& distinct(self.slots())
        &&& cells_ok(self.hasher(), self.slots(), self.meta()@, self.meta().spec_bits())
        &&& ordered(self.hasher(), self.slots())
        &&& anchored(self.hasher(), self.slots())
    }

    /// An empty table whose hasher is drawn at random.
    pub fn new(capacity: usize, meta_bits: usize) -> (table: RobinHood)
        requires
            1 <= capacity <= usize::MAX / 2,
            meta_bits <= MAX_META_BITS,
            capacity * meta_bits <= crate::bits::max_bits(),
        ensures
            table.wf(),
            table@ == Set::<u64>::empty(),
            table.spec_len() == 0,
            table.slots() == Seq::new(capacity as nat, |i: int| None::<u64>),
            table.meta().spec_bits() == meta_bits,
    {
        RobinHood::build(capacity, meta_bits, crate::hashing::fresh_state())
    }

    /// An empty table whose hasher is fixed by `seed`.
    pub fn with_seed(capacity: usize, meta_bits: usize, seed: u64) -> (table: RobinHood)
        requires
            1 <= capacity <= usize::MAX / 2,
            meta_bits <= MAX_META_BITS,
            capacity * meta_bits <= crate::bits::max_bits(),
        ensures
            table.wf(),
            table@ == Set::<u64>::empty(),
            table.spec_len() == 0,
            table.slots() == Seq::new(capacity as nat, |i: int| None::<u64>),
            table.meta().spec_bits() == meta_bits,
            table.hasher() == seeded_member(seed, 0),
    {
        RobinHood::build(capacity, meta_bits, crate::hashing::state_for_seed(seed, 0))
    }

    fn build(capacity: usize, meta_bits: usize, hasher: RandomState) -> (table: RobinHood)
        requires
            1 <= capacity <= usize::MAX / 2,
            meta_bits <= MAX_META_BITS,
            capacity * meta_bits <= crate::bits::max_bits(),
        ensures
            table.wf(),
            table@ == Set::<u64>::empty(),
            table.spec_len() == 0,
            table.slots() == Seq::new(capacity as nat, |i: int| None::<u64>),
            table.meta().spec_bits() == meta_bits,
            table.hasher() == hasher,
    {
        let table = RobinHood {
            hasher,
            buckets: empty_slots(capacity),
            meta: MetaMap::new(capacity, meta_bits),
            len: 0,
        };
        proof {
            assert forall|i: int| 0 <= i < table.slots().len() implies #[trigger] ordered_at(
                table.hasher(),
                table.slots(),
                i,
            ) by {}
            assert(slot_psl(table.hasher(), table.slots(), 0) <= 1);
        }
        table
    }

    /// The number of keys in the set.
    pub fn len(&self) -> (len: usize)
        requires
            self.wf(),
        ensures
            len == self@.len(),
            len == self.spec_len(),
            len <= self.slots().len(),
    {
        proof {
            lemma_keys_count(self.slots());
            lemma_occupied_bound(self.slots());
        }
        self.len
    }

    /// The number of buckets, fixed when the table was made.
    pub fn capacity(&self) -> (capacity: usize)
        ensures
            capacity == self.slots().len(),
    {
        self.buckets.len()
    }

    /// The home bucket of a key.
    fn bucket_for(&self, key: u64) -> (home: usize)
        requires
            self.shaped(),
        ensures
            home == self.home(key),
            home < self.slots().len(),
    {
        hash_to_bucket(&self.hasher, key, self.buckets.len()).1
    }

    /// The probe-sequence length a key has in a bucket.
    fn psl_of(&self, key: u64, bucket: usize) -> (psl: usize)
        requires
            self.shaped(),
            bucket < self.slots().len(),
        ensures
            psl == psl_at(self.hasher(), key, bucket as int, self.slots().len() as int),
            1 <= psl <= self.slots().len(),
    {
        let capacity = self.buckets.len();
        let home = self.bucket_for(key);
        if bucket < home {
            (capacity - home) + bucket + 1
        } else {
            bucket - home + 1
        }
    }

    /// Writes a key over a bucket whose content, if any, is closer to its
    /// home than the key is to its own, and counts the key where the bucket
    /// was empty.
    fn settle_key(&mut self, bucket: usize, key: u64, psl: usize)
        requires
            old(self).wf(),
            bucket < old(self).slots().len(),
            !holds(old(self).slots(), key),
            psl == psl_at(old(self).hasher(), key, bucket as int, old(self).slots().len() as int),
            psl >= slot_psl(old(self).hasher(), old(self).slots(), bucket as int),
            psl <= slot_psl(
                old(self).hasher(),
                old(self).slots(),
                predecessor(bucket as int, old(self).slots().len() as int),
            ) + 1,
            anchored(old(self).hasher(), old(self).slots().update(bucket as int, Some(key))),
        ensures
            final(self).wf(),
            final(self).hasher() == old(self).hasher(),
            final(self).slots() == old(self).slots().update(bucket as int, Some(key)),
            final(self).meta().spec_bits() == old(self).meta().spec_bits(),
            final(self).spec_len() == old(self).spec_len() + if old(self).slots()[bucket as int] is None {
                1nat
            } else {
                0nat
            },
            final(self)@ == crate::slots::without(old(self)@, old(self).slots()[bucket as int]).insert(
                key,
            ),
    {
        let ghost slots = self.slots();
        let ghost hasher = self.hasher();
        let ghost bits = self.meta().spec_bits();
        proof {
            lemma_keys_update(slots, bucket as int, Some(key));
            lemma_occupied_update(slots, bucket as int, Some(key));
            lemma_occupied_bound(slots);
            lemma_store_keeps_order(hasher, slots, bucket as int, key);
            lemma_psl_range(hasher, key, bucket as int, slots.len() as int);
        }
        let was_empty = self.buckets[bucket].is_none();
        self.set_bucket(bucket, key, psl);
        if was_empty {
            assert(self.buckets.len() <= usize::MAX);
            self.len += 1;
        }
        proof {
            let after = self.slots();
            assert forall|i: int| 0 <= i < after.len() implies #[trigger] self.meta()@[i]
                == cell_for(hasher, after, i, bits) by {
                if i != bucket {
                    assert(old(self).meta()@[i] == cell_for(hasher, slots, i, bits));
                }
            }
        }
    }

    /// Moves the key after the hole into the hole.
    fn shift_back(&mut self, hole: usize, next: usize, key: u64, psl: usize)
        requires
            old(self).mid_shift(hole as int),
            hole < old(self).slots().len(),
            next == successor(hole as int, old(self).slots().len() as int),
            old(self).slots()[next as int] == Some(key),
            psl == psl_at(old(self).hasher(), key, next as int, old(self).slots().len() as int),
            psl >= 2,
        ensures
            final(self).mid_shift(next as int),
            final(self).hasher() == old(self).hasher(),
            final(self).slots().len() == old(self).slots().len(),
            final(self).meta().spec_bits() == old(self).meta().spec_bits(),
            final(self)@ == old(self)@,
            final(self).slots() == old(self).slots().update(next as int, None).update(
                hole as int,
                Some(key),
            ),
    {
        let ghost slots = self.slots();
        let ghost hasher = self.hasher();
        let ghost bits = self.meta().spec_bits();
        let ghost capacity = slots.len() as int;
        let ghost cleared = slots.update(next as int, None);
        proof {
            lemma_shift_step(hasher, slots, hole as int);
            lemma_holds_at(slots, next as int, key);
            lemma_keys_update(slots, next as int, None);
            lemma_occupied_update(slots, next as int, None);
            lemma_keys_update(cleared, hole as int, Some(key));
            lemma_occupied_update(cleared, hole as int, Some(key));
            lemma_psl_range(hasher, key, hole as int, capacity);
        }
        self.clear_bucket(next);
        self.set_bucket(hole, key, psl - 1);
        proof {
            let after = self.slots();
            assert(after == cleared.update(hole as int, Some(key)));
            assert(self@ =~= old(self)@);
            assert forall|i: int| 0 <= i < after.len() implies #[trigger] self.meta()@[i]
                == cell_for(hasher, after, i, bits) by {
                if i != hole && i != next {
                    assert(old(self).meta()@[i] == cell_for(hasher, slots, i, bits));
                }
            }
        }
    }

    /// The state of the table while a removal shifts keys back over a hole.
    pub open spec fn mid_shift(&self, hole: int) -> bool {
        &&& self.shaped()
        &&& self.spec_len() == occupied(self.slots())
        &&& distinct(self.slots())
        &&& cells_ok(self.hasher(), self.slots(), self.meta()@, self.meta().spec_bits())
        &&& shifting(self.hasher(), self.slots(), hole)
    }

    /// Puts a key into a bucket and records its probe-sequence length.
    fn set_bucket(&mut self, bucket: usize, key: u64, psl: usize)
        requires
            old(self).shaped(),
            bucket < old(self).slots().len(),
            psl >= 1,
        ensures
            final(self).shaped(),
            final(self).hasher() == old(self).hasher(),
            final(self).spec_len() == old(self).spec_len(),
            final(self).slots() == old(self).slots().update(bucket as int, Some(key)),
            final(self).meta().spec_bits() == old(self).meta().spec_bits(),
            final(self).meta()@ == old(self).meta()@.update(
                bucket as int,
                full_cell(Metadata::Psl(psl), old(self).meta().spec_bits()),
            ),
    {
        self.buckets.set(bucket, Some(key));
        self.meta.set_full(bucket, Metadata::Psl(psl));
    }

    /// Empties a bucket and its metadata cell.
    fn clear_bucket(&mut self, bucket: usize)
        requires
            old(self).shaped(),
            bucket < old(self).slots().len(),
        ensures
            final(self).shaped(),
            final(self).hasher() == old(self).hasher(),
            final(self).spec_len() == old(self).spec_len(),
            final(self).slots() == old(self).slots().update(bucket as int, None),
            final(self).meta().spec_bits() == old(self).meta().spec_bits(),
            final(self).meta()@ == old(self).meta()@.update(bucket as int, empty_cell()),
    {
        self.buckets.set(bucket, None);
        self.meta.set_empty(bucket);
    }

    /// Walks from the home of a key to the bucket that holds it. Gives that
    /// bucket, if there is one, and the number of buckets read.
    fn locate(&self, key: u64) -> (found: (Option<usize>, usize))
        requires
            self.wf(),
        ensures
            match found.0 {
                Some(bucket) => bucket < self.slots().len() && self.slots()[bucket as int] == Some(
                    key,
                ),
                None => !holds(self.slots(), key),
            },
            found.1 <= self.slots().len(),
            found.0 is Some ==> found.1 >= 1,
            (
                match found.0 {
                    Some(bucket) => Some(bucket as int),
                    None => None,
                },
                found.1 as nat,
            ) == seek(self.hasher(), self.slots(), self.meta().spec_bits(), key, 0),
    {
        let capacity = self.buckets.len();
        let home = self.bucket_for(key);
        let mut probes: usize = 0;
        let mut bucket = home;
        let mut steps: usize = 0;
        while steps < capacity
            invariant
                self.wf(),
                capacity == self.slots().len(),
                home == self.home(key),
                home < capacity,
                steps <= capacity,
                bucket < capacity,
                steps < capacity ==> bucket == offset(home as int, steps as int, capacity as int),
                probes <= steps,
                forall|e: int|
                    0 <= e < steps ==> self.slots()[#[trigger] offset(
                        home as int,
                        e,
                        capacity as int,
                    )] != Some(key),
                ({
                    let whole = seek(
                        self.hasher(),
                        self.slots(),
                        self.meta().spec_bits(),
                        key,
                        0,
                    );
                    let rest = seek(
                        self.hasher(),
                        self.slots(),
                        self.meta().spec_bits(),
                        key,
                        steps as int,
                    );
                    whole.0 == rest.0 && whole.1 == rest.1 + probes
                }),
            decreases capacity - steps,
        {
            let psl = steps + 1;
            let mut read = true;
            proof {
                lemma_hint(self.hasher(), self.slots(), self.meta(), bucket as int);
            }
            match self.meta.hint_psl(bucket) {
                None => {
                    proof {
                        lemma_absent(self.hasher(), self.slots(), key, steps as int);
                    }
                    return (None, probes);
                },
                Some(PslHint::Exact(bucket_psl)) => {
                    if bucket_psl < psl {
                        proof {
                            lemma_absent(self.hasher(), self.slots(), key, steps as int);
                        }
                        return (None, probes);
                    } else if bucket_psl > psl {
                        read = false;
                    }
                },
                Some(PslHint::AtLeast(bucket_psl)) => {
                    if bucket_psl > psl {
                        read = false;
                    }
                },
            }
            if read {
                probes += 1;
                match self.buckets[bucket] {
                    None => {
                        proof {
                            lemma_absent(self.hasher(), self.slots(), key, steps as int);
                        }
                        return (None, probes);
                    },
                    Some(found) => {
                        if found == key {
                            return (Some(bucket), probes);
                        }
                        if self.psl_of(found, bucket) < psl {
                            proof {
                                lemma_absent(self.hasher(), self.slots(), key, steps as int);
                            }
                            return (None, probes);
                        }
                    },
                }
            }
            steps += 1;
            bucket = next_bucket(bucket, capacity);
        }
        proof {
            lemma_absent_everywhere(self.hasher(), self.slots(), key);
        }
        (None, probes)
    }

    /// What `probe` promises of a lookup of `key` in `table`.
    pub open spec fn probed(table: RobinHood, key: u64, probe: Probe) -> bool {
        &&& (probe.contained == table@.contains(key))
        &&& (probe.probes <= table.slots().len())
        &&& (probe.contained ==> probe.probes >= 1)
        &&& (probe.probes == seek(
            table.hasher(),
            table.slots(),
            table.meta().spec_bits(),
            key,
            0,
        ).1)
    }

    /// Looks a key up along its probe sequence, reading a bucket only where
    /// the metadata leaves open that the key is there.
    pub fn probe(&self, key: u64) -> (probe: Probe)
        requires
            self.wf(),
        ensures
            RobinHood::probed(*self, key, probe),
    {
        let (found, probes) = self.locate(key);
        Probe { contained: found.is_some(), probes }
    }

    /// What `insert` promises: how the table `after` an insert of `key` relates to the
    /// table `before` it, and what the `update` reports.
    pub open spec fn inserted(before: RobinHood, key: u64, after: RobinHood, update: Update) -> bool {
        &&& (after.wf())
        &&& (after.hasher() == before.hasher())
        &&& (after.slots().len() == before.slots().len())
        &&& (after.meta().spec_bits() == before.meta().spec_bits())
        &&& (update.completed == (before@.contains(key) || before.spec_len() < before.slots().len()))
        &&& (before@.contains(key) || !update.completed ==> update.total_writes == 0
                && after.slots() == before.slots() && after.meta() == before.meta())
        &&& (!before@.contains(key) && update.completed ==> after@ == before@.insert(key)
                && update.total_writes >= 1)
        &&& (!before@.contains(key) && update.completed && before.slots()[before.home(
                key,
            )] is None ==> update.total_writes == 1 && after.slots() == before.slots().update(before.home(key), Some(key)))
        &&& (update.total_probes <= before.slots().len())
        &&& (update.total_writes <= before.slots().len())
        &&& before.insert_outcome(key, after, update)
    }

    /// The exact outcome of an insert. Into a table without an empty bucket
    /// nothing is written: the insert is a lookup, and completes where the key
    /// is found. Otherwise the table and the counts are those of the walk that
    /// carries the key from its home.
    pub open spec fn insert_outcome(&self, key: u64, after: RobinHood, update: Update) -> bool {
        if self.spec_len() == self.slots().len() {
            let found = seek(self.hasher(), self.slots(), self.meta().spec_bits(), key, 0);
            &&& after.slots() == self.slots()
            &&& after.meta() == self.meta()
            &&& update.completed == found.0 is Some
            &&& update.total_writes == 0
            &&& update.total_probes == found.1
        } else {
            let end = carry(
                self.hasher(),
                self.slots(),
                self.meta().spec_bits(),
                key,
                1,
                self.home(key),
                self.slots().len(),
            );
            &&& after.slots() == end.slots
            &&& update.completed == end.completed
            &&& update.total_writes == end.writes
            &&& update.total_probes == end.reads
        }
    }

    /// Adds a key. A key already in the set leaves the table as it is, and so
    /// does a new key when every bucket is taken: the insert then reports that
    /// it did not complete. Otherwise the key walks forward from its home,
    /// takes the place of the first key closer to its own home, and the key
    /// displaced walks on in turn, until one of them meets an empty bucket.
    #[verifier::rlimit(80)]
    pub fn insert(&mut self, key: u64) -> (update: Update)
        requires
            old(self).wf(),
        ensures
            RobinHood::inserted(*old(self), key, *final(self), update),
    {
        let capacity = self.buckets.len();
        proof {
            lemma_occupied_bound(self.slots());
        }
        if self.len == capacity {
            let (found, probes) = self.locate(key);
            return Update { total_probes: probes, total_writes: 0, completed: found.is_some() };
        }
        let mut update = Update { total_probes: 0, total_writes: 0, completed: true };
        let ghost before = *self;
        let ghost spare = choose|e: int|
            0 <= e < self.slots().len() && (#[trigger] self.slots()[e]) is None;
        proof {
            assert(ordered_at(
                self.hasher(),
                self.slots(),
                successor(spare, self.slots().len() as int),
            ));
        }
        let home = self.bucket_for(key);
        let mut active_key = key;
        let mut psl: usize = 1;
        let mut bucket = home;
        let mut steps: usize = 0;
        while steps < capacity
            invariant
                before == *old(self),
                before.wf(),
                before.spec_len() < capacity,
                self.wf(),
                self.hasher() == before.hasher(),
                self.slots().len() == before.slots().len(),
                self.meta().spec_bits() == before.meta().spec_bits(),
                self.spec_len() == before.spec_len(),
                capacity == self.slots().len(),
                home == before.home(key),
                home < capacity,
                steps < capacity,
                bucket == offset(home as int, steps as int, capacity as int),
                bucket < capacity,
                1 <= psl <= steps + 1,
                psl == psl_at(self.hasher(), active_key, bucket as int, capacity as int),
                psl > 1 ==> slot_psl(
                    self.hasher(),
                    self.slots(),
                    predecessor(bucket as int, capacity as int),
                ) >= psl - 1,
                forall|e: int|
                    0 <= e < steps ==> self.slots()[#[trigger] offset(
                        home as int,
                        e,
                        capacity as int,
                    )] is Some,
                update.total_writes == 0 ==> self.slots() == before.slots() && self.meta()
                    == before.meta() && active_key == key && psl == steps + 1 && forall|e: int|
                    0 <= e < steps ==> self.slots()[#[trigger] offset(
                        home as int,
                        e,
                        capacity as int,
                    )] != Some(key),
                update.total_writes > 0 ==> !before@.contains(key) && !holds(
                    self.slots(),
                    active_key,
                ) && before@.insert(key).contains(active_key) && self@ == before@.insert(
                    key,
                ).remove(active_key),
                steps > 0 ==> before.slots()[home as int] is Some,
                0 <= spare < capacity,
                self.slots()[spare] is None,
                slot_psl(self.hasher(), self.slots(), successor(spare, capacity as int)) <= 1,
                update.completed,
                update.total_probes <= steps,
                update.total_writes <= steps,
                ({
                    let end = carry(
                        before.hasher(),
                        before.slots(),
                        before.meta().spec_bits(),
                        key,
                        1,
                        home as int,
                        before.slots().len(),
                    );
                    let rest = carry(
                        self.hasher(),
                        self.slots(),
                        self.meta().spec_bits(),
                        active_key,
                        psl as int,
                        bucket as int,
                        (capacity - steps) as nat,
                    );
                    &&& end.slots == rest.slots
                    &&& end.completed == rest.completed
                    &&& end.writes == update.total_writes + rest.writes
                    &&& end.reads == update.total_probes + rest.reads
                }),
            decreases capacity - steps,
        {
            let ghost slots = self.slots();
            let ghost hasher = self.hasher();
            proof {
                lemma_hint(hasher, slots, self.meta(), bucket as int);
                lemma_occupied_bound(slots);
                if update.total_writes == 0 && slot_psl(hasher, slots, bucket as int) < psl {
                    lemma_absent(hasher, slots, key, steps as int);
                }
                assert(ordered_at(hasher, slots, successor(bucket as int, capacity as int)));
                lemma_psl_range(hasher, active_key, bucket as int, capacity as int);
                if slot_psl(hasher, slots, bucket as int) < psl {
                    lemma_anchor_stays(hasher, slots, bucket as int, active_key, spare);
                }
            }
            let look = match self.meta.hint_psl(bucket) {
                None => {
                    self.settle_key(bucket, active_key, psl);
                    update.total_writes += 1;
                    proof {
                        assert(self@ =~= before@.insert(key));
                        if steps == 0 {
                            assert(offset(home as int, 0, capacity as int) == home);
                        }
                    }
                    return update;
                },
                Some(PslHint::Exact(bucket_psl)) => bucket_psl <= psl,
                Some(PslHint::AtLeast(bucket_psl)) => bucket_psl <= psl,
            };
            if look {
                update.total_probes += 1;
                match self.buckets[bucket] {
                    None => {
                        self.settle_key(bucket, active_key, psl);
                        update.total_writes += 1;
                        proof {
                            assert(self@ =~= before@.insert(key));
                            if steps == 0 {
                                assert(offset(home as int, 0, capacity as int) == home);
                            }
                        }
                        return update;
                    },
                    Some(contained_key) => {
                        proof {
                            lemma_holds_at(slots, bucket as int, contained_key);
                        }
                        if contained_key == active_key {
                            return update;
                        }
                        let contained_psl = self.psl_of(contained_key, bucket);
                        if contained_psl < psl {
                            self.settle_key(bucket, active_key, psl);
                            update.total_writes += 1;
                            proof {
                                assert(self@ =~= before@.insert(key).remove(contained_key));
                                assert(!holds(self.slots(), contained_key)) by {
                                    assert(!self@.contains(contained_key));
                                }
                            }
                            active_key = contained_key;
                            psl = contained_psl;
                        }
                    },
                }
            }
            proof {
                let now = self.slots();
                assert(now[bucket as int] is Some);
                assert(offset(home as int, 0, capacity as int) == home);
                assert forall|e: int| 0 <= e < steps + 1 implies now[#[trigger] offset(
                    home as int,
                    e,
                    capacity as int,
                )] is Some by {
                    if e < steps {
                        assert(slots[offset(home as int, e, capacity as int)] is Some);
                    }
                }
                if steps + 1 == capacity {
                    assert forall|i: int| 0 <= i < now.len() implies (#[trigger] now[i]) is Some by {
                        let e = distance(home as int, i, capacity as int);
                        assert(offset(home as int, e, capacity as int) == i);
                    }
                    lemma_occupied_bound(now);
                    assert(false);
                }
                lemma_psl_range(self.hasher(), active_key, bucket as int, capacity as int);
            }
            psl += 1;
            bucket = next_bucket(bucket, capacity);
            steps += 1;
        }
        update
    }

    /// What `remove` promises: how the table `after` a removal of `key` relates to the
    /// table `before` it, and what the `update` reports.
    pub open spec fn removed(before: RobinHood, key: u64, after: RobinHood, update: Update) -> bool {
        &&& (after.wf())
        &&& (after.hasher() == before.hasher())
        &&& (after.slots().len() == before.slots().len())
        &&& (after.meta().spec_bits() == before.meta().spec_bits())
        &&& (after@ == before@.remove(key))
        &&& (update.completed)
        &&& (before@.contains(key) ==> update.total_writes >= 1)
        &&& (!before@.contains(key) ==> update.total_writes == 0 && after.slots() == before.slots() && after.meta() == before.meta())
        &&& before.remove_outcome(key, after, update)
    }

    /// The exact outcome of a removal: after the lookup of the key, nothing
    /// more where the key is not found, and else the emptying of its bucket and
    /// the walk that moves the keys after it back.
    pub open spec fn remove_outcome(&self, key: u64, after: RobinHood, update: Update) -> bool {
        let found = seek(self.hasher(), self.slots(), self.meta().spec_bits(), key, 0);
        match found.0 {
            None => {
                &&& after.slots() == self.slots()
                &&& after.meta() == self.meta()
                &&& update.total_writes == 0
                &&& update.total_probes == found.1
            },
            Some(bucket) => {
                let end = shift(
                    self.hasher(),
                    self.slots().update(bucket, None),
                    self.meta().spec_bits(),
                    bucket,
                    self.slots().len(),
                );
                &&& after.slots() == end.slots
                &&& update.total_writes == 1 + end.writes
                &&& update.total_probes == found.1 + end.reads
            },
        }
    }

    /// Removes a key: empties its bucket, then moves every key of the run
    /// after it one bucket back, up to an empty bucket or a key at its home.
    pub fn remove(&mut self, key: u64) -> (update: Update)
        requires
            old(self).wf(),
        ensures
            RobinHood::removed(*old(self), key, *final(self), update),
    {
        let capacity = self.buckets.len();
        let (found, probes) = self.locate(key);
        let mut update = Update { total_probes: probes, total_writes: 0, completed: true };
        let ghost before = *self;
        let mut hole = match found {
            None => {
                proof {
                    assert(self@ =~= old(self)@.remove(key));
                }
                return update;
            },
            Some(bucket) => bucket,
        };
        proof {
            lemma_occupied_bound(self.slots());
            lemma_keys_update(self.slots(), hole as int, None);
            lemma_occupied_update(self.slots(), hole as int, None);
            lemma_clear_starts_shift(self.hasher(), self.slots(), hole as int);
        }
        let ghost pos = hole as int;
        let ghost anchor = choose|b: int|
            0 <= b < before.slots().len() && #[trigger] slot_psl(
                before.hasher(),
                before.slots(),
                b,
            ) <= 1;
        proof {
            assert(ordered_at(
                before.hasher(),
                before.slots(),
                successor(pos, capacity as int),
            ));
        }
        self.len -= 1;
        self.clear_bucket(hole);
        update.total_writes = 1;
        let ghost start = self.slots();
        let ghost mut shifts: nat = 0;
        let ghost mut left: int = if anchor == pos {
            capacity as int
        } else {
            distance(pos, anchor, capacity as int)
        };
        loop
            invariant
                before == *old(self),
                before.wf(),
                self.mid_shift(hole as int),
                self.hasher() == before.hasher(),
                self.slots().len() == before.slots().len(),
                self.meta().spec_bits() == before.meta().spec_bits(),
                capacity == self.slots().len(),
                hole < capacity,
                self@ == before@.remove(key),
                before@.contains(key),
                update.completed,
                start == before.slots().update(pos, None),
                0 <= pos < capacity,
                probes <= capacity,
                0 <= anchor < capacity,
                anchor != hole ==> slot_psl(self.hasher(), self.slots(), anchor) <= 1,
                anchor == hole ==> slot_psl(
                    self.hasher(),
                    self.slots(),
                    successor(hole as int, capacity as int),
                ) <= 2,
                left == if anchor == hole {
                    capacity as int
                } else {
                    distance(hole as int, anchor, capacity as int)
                },
                left >= 1,
                shifts + left <= capacity,
                seek(before.hasher(), before.slots(), before.meta().spec_bits(), key, 0) == (
                    Some(pos),
                    probes as nat,
                ),
                update.total_writes == 1 + 2 * shifts,
                probes <= update.total_probes <= probes + shifts,
                ({
                    let end = shift(
                        before.hasher(),
                        start,
                        before.meta().spec_bits(),
                        pos,
                        capacity as nat,
                    );
                    let rest = shift(
                        self.hasher(),
                        self.slots(),
                        self.meta().spec_bits(),
                        hole as int,
                        (capacity - shifts) as nat,
                    );
                    &&& end.slots == rest.slots
                    &&& 1 + end.writes == update.total_writes + rest.writes
                    &&& probes + end.reads == update.total_probes + rest.reads
                }),
            decreases left,
        {
            let ghost slots = self.slots();
            let ghost hasher = self.hasher();
            let next = next_bucket(hole, capacity);
            proof {
                lemma_hint(hasher, slots, self.meta(), next as int);
            }
            match self.meta.hint_psl(next) {
                None => {
                    proof {
                        lemma_shift_ends(hasher, slots, hole as int);
                        assert(slot_psl(hasher, slots, hole as int) <= 1);
                    }
                    return update;
                },
                Some(PslHint::Exact(1)) => {
                    proof {
                        lemma_shift_ends(hasher, slots, hole as int);
                        assert(slot_psl(hasher, slots, hole as int) <= 1);
                    }
                    return update;
                },
                _ => {},
            }
            update.total_probes += 1;
            match self.buckets[next] {
                None => {
                    proof {
                        lemma_shift_ends(hasher, slots, hole as int);
                        assert(slot_psl(hasher, slots, hole as int) <= 1);
                    }
                    return update;
                },
                Some(shift_key) => {
                    let shift_psl = self.psl_of(shift_key, next);
                    if shift_psl == 1 {
                        proof {
                            lemma_shift_ends(hasher, slots, hole as int);
                            assert(slot_psl(hasher, slots, hole as int) <= 1);
                        }
                        return update;
                    }
                    proof {
                        lemma_shift_step(hasher, slots, hole as int);
                        assert(anchor != next);
                    }
                    self.shift_back(hole, next, shift_key, shift_psl);
                    update.total_writes += 2;
                    proof {
                        assert(slot_psl(self.hasher(), self.slots(), anchor) <= 1);
                        shifts = shifts + 1;
                        left = left - 1;
                    }
                    hole = next;
                },
            }
        }
    }
}

/// Hints never add a read: from any step on, a lookup that follows hints of
/// some width reads no more buckets than one that has no hints.
pub proof fn lemma_hints_save_reads(
    hasher: RandomState,
    slots: Seq<Option<u64>>,
    bits: nat,
    key: u64,
    steps: int,
)
    requires
        bits <= MAX_META_BITS,
        slots.len() <= usize::MAX,
    ensures
        seek(hasher, slots, bits, key, steps).1 <= seek(hasher, slots, 0, key, steps).1,
    decreases slots.len() - steps,
{
    let capacity = slots.len() as int;
    if 0 <= steps < capacity {
        lemma_hints_save_reads(hasher, slots, bits, key, steps + 1);
        let home = bucket_of(hasher, key, capacity);
        let bucket = offset(home, steps, capacity);
        lemma_psl_range(hasher, key, bucket, capacity);
        if bits >= 2 {
            lemma_payload_cap(bits);
        }
        match slots[bucket] {
            Some(other) => {
                lemma_psl_range(hasher, other, bucket, capacity);
            },
            None => {},
        }
    }
}

impl RobinHood {
    /// The count of a table is the number of keys in its set, and no more
    /// than the number of buckets.
    pub proof fn law_len_counts_keys(table: RobinHood)
        requires
            table.wf(),
        ensures
            table@.finite(),
            table.spec_len() == table@.len(),
            table.spec_len() <= table.slots().len(),
    {
        lemma_keys_count(table.slots());
        lemma_occupied_bound(table.slots());
    }

    /// A key whose insert completed is found by the next lookup, which reads
    /// at least one bucket and no more buckets than the table has.
    pub proof fn law_inserted_key_is_found(
        before: RobinHood,
        key: u64,
        after: RobinHood,
        update: Update,
        probe: Probe,
    )
        requires
            before.wf(),
            RobinHood::inserted(before, key, after, update),
            update.completed,
            RobinHood::probed(after, key, probe),
        ensures
            probe.contained,
            1 <= probe.probes <= after.slots().len(),
            after.slots().len() <= MAX_CHAIN ==> probe.probes <= MAX_CHAIN,
    {
    }

    /// A key that is not in the set is not found.
    pub proof fn law_absent_key_is_not_found(table: RobinHood, key: u64, probe: Probe)
        requires
            table.wf(),
            !table@.contains(key),
            RobinHood::probed(table, key, probe),
        ensures
            !probe.contained,
    {
    }

    /// A key that was just removed is not found.
    pub proof fn law_removed_key_is_not_found(
        before: RobinHood,
        key: u64,
        after: RobinHood,
        update: Update,
        probe: Probe,
    )
        requires
            before.wf(),
            RobinHood::removed(before, key, after, update),
            RobinHood::probed(after, key, probe),
        ensures
            !probe.contained,
    {
    }

    /// Inserting a key again, after an insert of it that completed, completes,
    /// writes nothing and leaves the table and its count as they are.
    pub proof fn law_second_insert_changes_nothing(
        before: RobinHood,
        key: u64,
        between: RobinHood,
        first: Update,
        after: RobinHood,
        second: Update,
    )
        requires
            before.wf(),
            RobinHood::inserted(before, key, between, first),
            first.completed,
            RobinHood::inserted(between, key, after, second),
        ensures
            second.completed,
            second.total_writes == 0,
            after.slots() == between.slots(),
            after.meta() == between.meta(),
            after.spec_len() == between.spec_len(),
    {
    }

    /// Inserting a new key and removing it again gives back the set and the
    /// count, where the insert completed.
    pub proof fn law_insert_then_remove(
        before: RobinHood,
        key: u64,
        between: RobinHood,
        first: Update,
        after: RobinHood,
        second: Update,
    )
        requires
            before.wf(),
            !before@.contains(key),
            RobinHood::inserted(before, key, between, first),
            first.completed,
            RobinHood::removed(between, key, after, second),
        ensures
            after@ == before@,
            after.spec_len() == before.spec_len(),
            !after@.contains(key),
            second.completed,
            second.total_writes >= 1,
    {
        assert(after@ =~= before@);
        RobinHood::law_len_counts_keys(before);
        RobinHood::law_len_counts_keys(after);
    }

    /// Within a stretch of occupied buckets, a key is at most as much further
    /// from its home than an earlier one as the two buckets are apart.
    pub proof fn law_run_order(table: RobinHood, first: int, second: int)
        requires
            table.wf(),
            0 <= first <= second < table.slots().len(),
            forall|i: int| first <= i <= second ==> (#[trigger] table.slots()[i]) is Some,
        ensures
            slot_psl(table.hasher(), table.slots(), first) >= slot_psl(
                table.hasher(),
                table.slots(),
                second,
            ) - (second - first),
        decreases second - first,
    {
        if first < second {
            RobinHood::law_run_order(table, first, second - 1);
            assert(ordered_at(table.hasher(), table.slots(), second));
        }
    }

    /// No bucket between the home of a key and the bucket that holds it is
    /// empty, and each holds a key at least as far from its own home.
    pub proof fn law_no_gap_before_a_key(table: RobinHood, bucket: int, key: u64, steps: int)
        requires
            table.wf(),
            0 <= bucket < table.slots().len(),
            table.slots()[bucket] == Some(key),
            0 <= steps < psl_at(table.hasher(), key, bucket, table.slots().len() as int),
        ensures
            table.slots()[offset(table.home(key), steps, table.slots().len() as int)] is Some,
            slot_psl(
                table.hasher(),
                table.slots(),
                offset(table.home(key), steps, table.slots().len() as int),
            ) >= steps + 1,
    {
        let capacity = table.slots().len() as int;
        lemma_psl_range(table.hasher(), key, bucket, capacity);
        let reach = psl_at(table.hasher(), key, bucket, capacity) - 1;
        lemma_run(table.hasher(), table.slots(), table.home(key), reach, steps);
    }

    /// An insert that changes the table writes at least one bucket.
    pub proof fn law_change_costs_a_write(
        before: RobinHood,
        key: u64,
        after: RobinHood,
        update: Update,
    )
        requires
            before.wf(),
            RobinHood::inserted(before, key, after, update),
            after.slots() != before.slots(),
        ensures
            update.total_writes >= 1,
    {
    }

    /// Lookups and counts depend on the set alone: two tables that hold the
    /// same keys give the same answers, whatever their hashers.
    pub proof fn law_same_keys_same_answers(
        one: RobinHood,
        other: RobinHood,
        key: u64,
        probe_one: Probe,
        probe_other: Probe,
    )
        requires
            one.wf(),
            other.wf(),
            one@ == other@,
            RobinHood::probed(one, key, probe_one),
            RobinHood::probed(other, key, probe_other),
        ensures
            probe_one.contained == probe_other.contained,
            one.spec_len() == other.spec_len(),
    {
        RobinHood::law_len_counts_keys(one);
        RobinHood::law_len_counts_keys(other);
    }

    /// Two tables of one capacity that hold the same keys fare alike with the
    /// same insert: it completes on both or on neither, and they hold the same
    /// keys afterwards.
    pub proof fn law_same_keys_after_insert(
        one: RobinHood,
        other: RobinHood,
        key: u64,
        one_after: RobinHood,
        other_after: RobinHood,
        update_one: Update,
        update_other: Update,
    )
        requires
            one.wf(),
            other.wf(),
            one@ == other@,
            one.slots().len() == other.slots().len(),
            RobinHood::inserted(one, key, one_after, update_one),
            RobinHood::inserted(other, key, other_after, update_other),
        ensures
            update_one.completed == update_other.completed,
            one_after@ == other_after@,
            one_after.spec_len() == other_after.spec_len(),
    {
        RobinHood::law_len_counts_keys(one);
        RobinHood::law_len_counts_keys(other);
        RobinHood::law_len_counts_keys(one_after);
        RobinHood::law_len_counts_keys(other_after);
    }

    /// Two tables with the same hasher, the same buckets and the same
    /// metadata width are left with the same buckets by the same insert, which
    /// reports the same on both.
    pub proof fn law_same_table_after_insert(
        one: RobinHood,
        other: RobinHood,
        key: u64,
        one_after: RobinHood,
        other_after: RobinHood,
        update_one: Update,
        update_other: Update,
    )
        requires
            one.wf(),
            other.wf(),
            one.hasher() == other.hasher(),
            one.slots() == other.slots(),
            one.meta().spec_bits() == other.meta().spec_bits(),
            RobinHood::inserted(one, key, one_after, update_one),
            RobinHood::inserted(other, key, other_after, update_other),
        ensures
            update_one == update_other,
            one_after.slots() == other_after.slots(),
    {
    }

    /// Two tables with the same hasher, the same buckets and the same
    /// metadata width are left with the same buckets by the same removal,
    /// which reports the same on both.
    pub proof fn law_same_table_after_remove(
        one: RobinHood,
        other: RobinHood,
        key: u64,
        one_after: RobinHood,
        other_after: RobinHood,
        update_one: Update,
        update_other: Update,
    )
        requires
            one.wf(),
            other.wf(),
            one.hasher() == other.hasher(),
            one.slots() == other.slots(),
            one.meta().spec_bits() == other.meta().spec_bits(),
            RobinHood::removed(one, key, one_after, update_one),
            RobinHood::removed(other, key, other_after, update_other),
        ensures
            update_one == update_other,
            one_after.slots() == other_after.slots(),
    {
    }

    /// Two tables with the same hasher, the same buckets and the same
    /// metadata width answer the same lookup alike, reads included.
    pub proof fn law_same_table_same_probe(
        one: RobinHood,
        other: RobinHood,
        key: u64,
        probe_one: Probe,
        probe_other: Probe,
    )
        requires
            one.wf(),
            other.wf(),
            one.hasher() == other.hasher(),
            one.slots() == other.slots(),
            one.meta().spec_bits() == other.meta().spec_bits(),
            RobinHood::probed(one, key, probe_one),
            RobinHood::probed(other, key, probe_other),
        ensures
            probe_one == probe_other,
    {
    }

    /// Whether `states`, `steps` and `updates` tell one history of a table:
    /// each step, an insert where its flag is set and a removal where it is
    /// not, leads from one state to the next and reports its update.
    pub open spec fn history(
        states: Seq<RobinHood>,
        steps: Seq<(bool, u64)>,
        updates: Seq<Update>,
    ) -> bool {
        &&& states.len() == steps.len() + 1
        &&& updates.len() == steps.len()
        &&& forall|i: int|
            0 <= i < steps.len() ==> if (#[trigger] steps[i]).0 {
                RobinHood::inserted(states[i], steps[i].1, states[i + 1], updates[i])
            } else {
                RobinHood::removed(states[i], steps[i].1, states[i + 1], updates[i])
            }
    }

    /// Two histories of the same steps that start alike stay alike up to
    /// step `upto`.
    proof fn lemma_histories_agree(
        steps: Seq<(bool, u64)>,
        one: Seq<RobinHood>,
        other: Seq<RobinHood>,
        updates_one: Seq<Update>,
        updates_other: Seq<Update>,
        upto: int,
    )
        requires
            RobinHood::history(one, steps, updates_one),
            RobinHood::history(other, steps, updates_other),
            one[0].wf(),
            other[0].wf(),
            one[0].hasher() == other[0].hasher(),
            one[0].slots() == other[0].slots(),
            one[0].meta().spec_bits() == other[0].meta().spec_bits(),
            0 <= upto <= steps.len(),
        ensures
            one[upto].wf(),
            other[upto].wf(),
            one[upto].hasher() == other[upto].hasher(),
            one[upto].slots() == other[upto].slots(),
            one[upto].meta().spec_bits() == other[upto].meta().spec_bits(),
            forall|i: int| 0 <= i < upto ==> updates_one[i] == updates_other[i],
        decreases upto,
    {
        if upto > 0 {
            let last = upto - 1;
            RobinHood::lemma_histories_agree(steps, one, other, updates_one, updates_other, last);
            let step = steps[last];
            if step.0 {
                RobinHood::law_same_table_after_insert(
                    one[last],
                    other[last],
                    step.1,
                    one[last + 1],
                    other[last + 1],
                    updates_one[last],
                    updates_other[last],
                );
            } else {
                RobinHood::law_same_table_after_remove(
                    one[last],
                    other[last],
                    step.1,
                    one[last + 1],
                    other[last + 1],
                    updates_one[last],
                    updates_other[last],
                );
            }
        }
    }

    /// Two tables built with the same capacity, metadata width and seed, and
    /// then taken through the same inserts and removals, report the same
    /// updates and hold the same buckets, the same keys and the same count
    /// after every step.
    pub proof fn law_same_seed_same_history(
        seed: u64,
        steps: Seq<(bool, u64)>,
        one: Seq<RobinHood>,
        other: Seq<RobinHood>,
        updates_one: Seq<Update>,
        updates_other: Seq<Update>,
    )
        requires
            RobinHood::history(one, steps, updates_one),
            RobinHood::history(other, steps, updates_other),
            one[0].wf(),
            other[0].wf(),
            one[0].hasher() == seeded_member(seed, 0),
            other[0].hasher() == seeded_member(seed, 0),
            one[0].slots() == other[0].slots(),
            one[0].meta().spec_bits() == other[0].meta().spec_bits(),
        ensures
            updates_one == updates_other,
            forall|i: int|
                0 <= i <= steps.len() ==> (#[trigger] one[i]).slots() == other[i].slots()
                    && one[i]@ == other[i]@ && one[i].spec_len() == other[i].spec_len(),
    {
        assert forall|i: int| 0 <= i <= steps.len() implies (#[trigger] one[i]).slots()
            == other[i].slots() && one[i]@ == other[i]@ && one[i].spec_len()
            == other[i].spec_len() by {
            RobinHood::lemma_histories_agree(steps, one, other, updates_one, updates_other, i);
            RobinHood::law_len_counts_keys(one[i]);
            RobinHood::law_len_counts_keys(other[i]);
        }
        RobinHood::lemma_histories_agree(
            steps,
            one,
            other,
            updates_one,
            updates_other,
            steps.len() as int,
        );
        assert(updates_one =~= updates_other);
    }

    /// Metadata never adds a read: a lookup in a table without metadata bits
    /// reads at least as many buckets as a lookup in a table with the same
    /// buckets and any metadata, and both give the same answer.
    pub proof fn law_metadata_saves_reads(
        blind: RobinHood,
        sighted: RobinHood,
        key: u64,
        probe_blind: Probe,
        probe_sighted: Probe,
    )
        requires
            blind.wf(),
            sighted.wf(),
            blind.hasher() == sighted.hasher(),
            blind.slots() == sighted.slots(),
            blind.meta().spec_bits() == 0,
            RobinHood::probed(blind, key, probe_blind),
            RobinHood::probed(sighted, key, probe_sighted),
        ensures
            probe_sighted.contained == probe_blind.contained,
            probe_sighted.probes <= probe_blind.probes,
    {
        sighted.meta().lemma_cells();
        lemma_hints_save_reads(
            sighted.hasher(),
            sighted.slots(),
            sighted.meta().spec_bits(),
            key,
            0,
        );
    }

    /// An insert of a new key into a table without an empty bucket does not
    /// complete and leaves the table as it is.
    pub proof fn law_full_table_rejects(
        before: RobinHood,
        key: u64,
        after: RobinHood,
        update: Update,
    )
        requires
            before.wf(),
            before.spec_len() == before.slots().len(),
            !before@.contains(key),
            RobinHood::inserted(before, key, after, update),
        ensures
            !update.completed,
            update.total_writes == 0,
            after.slots() == before.slots(),
            after.meta() == before.meta(),
    {
    }

    /// Removing a key that is not in the set completes, writes nothing and
    /// leaves the table as it is.
    pub proof fn law_remove_of_absent_key(
        before: RobinHood,
        key: u64,
        after: RobinHood,
        update: Update,
    )
        requires
            before.wf(),
            !before@.contains(key),
            RobinHood::removed(before, key, after, update),
        ensures
            update.completed,
            update.total_writes == 0,
            after.slots() == before.slots(),
            after.meta() == before.meta(),
    {
    }
}

} // verus!
