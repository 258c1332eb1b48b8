//! Triangular probing with tombstones.
//!
//! Step `i` of the probe sequence of a key, counted from 0, looks at the
//! bucket `(home + i(i+1)/2) mod N`. The sequence reaches every bucket only
//! when the capacity `N` is a power of two; with another capacity the table
//! works all the same, but an insert may fail while buckets are still free.

use crate::coverage::{law_every_bucket_is_visited, power_of_two};
use crate::hashing::{bucket_of, hash_to_bucket, keyed_hash, seeded_member};
use crate::meta_map::{
    empty_cell, full_cell, lemma_payload_cap, tombstone_cell, MetaMap, Metadata, MAX_META_BITS,
};
use crate::robinhood::offset;
use crate::slots::{
    distinct, holds, keys_of, lemma_keys_count, lemma_keys_update, lemma_none_occupied,
    lemma_occupied_bound, lemma_occupied_update, occupied,
};
use crate::telemetry::{Probe, Update, MAX_CHAIN};
use ahash::RandomState;
use vstd::prelude::*;

verus! {

/// What a bucket holds.
#[derive(Clone, Copy, Debug, PartialEq, Eq, Structural)]
pub enum BucketItem {
    /// A key of the set.
    Value(u64),
    /// Nothing, and nothing ever since the table was made. A search stops here.
    Empty,
    /// Nothing any more: a key was removed here. A search goes on past it, and
    /// an insert may use the bucket again.
    Tombstone,
}

/// The `i`-th triangular number, `0 + 1 + ... + i`.
pub open spec fn triangle(i: int) -> int
    decreases i,
{
    if i <= 0 {
        0
    } else {
        triangle(i - 1) + i
    }
}

/// The bucket that step `i` of the probe sequence from `home` looks at.
pub open spec fn position(home: int, i: int, capacity: int) -> int {
    (home + triangle(i)) % capacity
}

/// The keys of the buckets: a bucket with a value is a slot with its key, any
/// other bucket an empty slot.
pub open spec fn key_slots(items: Seq<BucketItem>) -> Seq<Option<u64>> {
    Seq::new(
        items.len(),
        |i: int|
            match items[i] {
                BucketItem::Value(key) => Some(key),
                _ => None,
            },
    )
}

/// The metadata cell that goes with a bucket.
pub open spec fn cell_for(hasher: RandomState, item: BucketItem, bits: nat) -> (bool, nat) {
    match item {
        BucketItem::Value(key) => full_cell(Metadata::Hash(keyed_hash(hasher, key)), bits),
        BucketItem::Empty => empty_cell(),
        BucketItem::Tombstone => tombstone_cell(bits),
    }
}

/// No step before `upto` of the probe sequence from `home` meets an empty
/// bucket.
pub open spec fn path_clear(items: Seq<BucketItem>, home: int, upto: int) -> bool {
    forall|j: int|
        0 <= j < upto ==> !(items[#[trigger] position(home, j, items.len() as int)] is Empty)
}

/// Some step of the probe sequence from `home` looks at `bucket`, and no
/// step before it meets an empty bucket.
pub open spec fn reaches(items: Seq<BucketItem>, home: int, bucket: int) -> bool {
    exists|i: int|
        0 <= i < items.len() && position(home, i, items.len() as int) == bucket
            && #[trigger] path_clear(items, home, i)
}

/// The first step from `from` on that looks at a bucket without a value; the
/// capacity if every later step finds a value.
pub open spec fn first_open(items: Seq<BucketItem>, home: int, from: int) -> int
    decreases items.len() - from,
{
    if from >= items.len() {
        items.len() as int
    } else if !(items[position(home, from, items.len() as int)] is Value) {
        from
    } else {
        first_open(items, home, from + 1)
    }
}

/// A lookup of `key` from step `from` of its probe sequence on: the bucket
/// that holds the key, if one does, and the number of buckets read. The walk
/// ends without the key at a bucket that the metadata shows empty, unread; it
/// passes a bucket unread where the metadata rules the key out; any other
/// bucket it reads, and ends at it if the bucket holds the key or is empty.
pub open spec fn search(
    hasher: RandomState,
    items: Seq<BucketItem>,
    meta: MetaMap,
    key: u64,
    from: int,
) -> (Option<int>, nat)
    decreases items.len() - from,
{
    let capacity = items.len() as int;
    let bucket = position(bucket_of(hasher, key, capacity), from, capacity);
    if from < 0 || from >= capacity {
        (None, 0nat)
    } else if meta.shows_empty(bucket) {
        (None, 0nat)
    } else if meta.rules_out(bucket, keyed_hash(hasher, key)) {
        search(hasher, items, meta, key, from + 1)
    } else if items[bucket] == BucketItem::Value(key) {
        (Some(bucket), 1nat)
    } else if items[bucket] is Empty {
        (None, 1nat)
    } else {
        let rest = search(hasher, items, meta, key, from + 1);
        (rest.0, rest.1 + 1)
    }
}

/// The number of buckets that an insert of `key` reads from step `from` of
/// the probe sequence on. The walk ends at a bucket that the metadata shows
/// empty, unread; it passes a bucket unread that the metadata shows to be a
/// tombstone or where it rules the key out; any other bucket it reads, and
/// ends at it if the bucket holds the key or is empty.
pub open spec fn scan(
    hasher: RandomState,
    items: Seq<BucketItem>,
    meta: MetaMap,
    key: u64,
    from: int,
) -> nat
    decreases items.len() - from,
{
    let capacity = items.len() as int;
    let bucket = position(bucket_of(hasher, key, capacity), from, capacity);
    if from < 0 || from >= capacity {
        0
    } else if meta.shows_empty(bucket) {
        0
    } else if meta.shows_tombstone(bucket) || meta.rules_out(bucket, keyed_hash(hasher, key)) {
        scan(hasher, items, meta, key, from + 1)
    } else if items[bucket] == BucketItem::Value(key) || items[bucket] is Empty {
        1
    } else {
        scan(hasher, items, meta, key, from + 1) + 1
    }
}

/// Lookups and inserts see the metadata through its cells and its width
/// alone: two maps that agree in both lead to the same walk.
pub proof fn lemma_same_cells_same_walk(
    hasher: RandomState,
    items: Seq<BucketItem>,
    one: MetaMap,
    other: MetaMap,
    key: u64,
    from: int,
)
    requires
        one@ == other@,
        one.spec_bits() == other.spec_bits(),
    ensures
        search(hasher, items, one, key, from) == search(hasher, items, other, key, from),
        scan(hasher, items, one, key, from) == scan(hasher, items, other, key, from),
    decreases items.len() - from,
{
    if 0 <= from < items.len() {
        lemma_same_cells_same_walk(hasher, items, one, other, key, from + 1);
    }
}

/// Every metadata cell goes with its bucket, no key sits twice, and every
/// key can be reached from its home without passing an empty bucket.
pub open spec fn table_ok(
    hasher: RandomState,
    items: Seq<BucketItem>,
    cells: Seq<(bool, nat)>,
    bits: nat,
) -> bool {
    &&& cells.len() == items.len()
    &&& distinct(key_slots(items))
    &&& forall|i: int| 0 <= i < items.len() ==> #[trigger] cells[i] == cell_for(hasher, items[i], bits)
    &&& forall|b: int|
        0 <= b < items.len() ==> ((#[trigger] items[b]) matches BucketItem::Value(key) ==> reaches(
            items,
            bucket_of(hasher, key, items.len() as int),
            b,
        ))
}

/// A step of the sequence lands on a bucket of the table.
pub proof fn lemma_position_range(home: int, i: int, capacity: int)
    requires
        capacity > 0,
    ensures
        0 <= position(home, i, capacity) < capacity,
{
    vstd::arithmetic::div_mod::lemma_mod_bound(home + triangle(i), capacity);
}

/// The sequence starts at the home bucket.
pub proof fn lemma_first_position(home: int, capacity: int)
    requires
        0 <= home < capacity,
    ensures
        position(home, 0, capacity) == home,
{
    vstd::arithmetic::div_mod::lemma_small_mod(home as nat, capacity as nat);
}

/// Step `i + 1` looks `i + 1` buckets further than step `i`, around the end
/// of the table.
pub proof fn lemma_next_position(home: int, i: int, capacity: int)
    requires
        0 <= home < capacity,
        0 <= i,
        i + 1 < capacity,
    ensures
        position(home, i + 1, capacity) == offset(position(home, i, capacity), i + 1, capacity),
{
    let here = position(home, i, capacity);
    lemma_position_range(home, i, capacity);
    vstd::arithmetic::div_mod::lemma_add_mod_noop(home + triangle(i), i + 1, capacity);
    vstd::arithmetic::div_mod::lemma_small_mod((i + 1) as nat, capacity as nat);
    assert(position(home, i + 1, capacity) == (here + (i + 1)) % capacity);
    if here + i + 1 < capacity {
        vstd::arithmetic::div_mod::lemma_small_mod((here + i + 1) as nat, capacity as nat);
    } else {
        vstd::arithmetic::div_mod::lemma_mod_sub_multiples_vanish(here + i + 1, capacity);
        vstd::arithmetic::div_mod::lemma_small_mod(
            (here + i + 1 - capacity) as nat,
            capacity as nat,
        );
    }
}

/// Twice the `i`-th triangular number is `i(i+1)`.
pub proof fn law_triangular_number(i: int)
    requires
        i >= 0,
    ensures
        2 * triangle(i) == i * (i + 1),
    decreases i,
{
    if i > 0 {
        law_triangular_number(i - 1);
        let below = triangle(i - 1);
        assert(2 * below == (i - 1) * i);
        assert(triangle(i) == below + i);
        let twice = 2 * (below + i);
        assert(twice == i * (i + 1)) by (nonlinear_arith)
            requires
                twice == 2 * (below + i),
                2 * below == (i - 1) * i,
        ;
    } else {
        assert(i * (i + 1) == 0) by (nonlinear_arith)
            requires
                i == 0,
        ;
    }
}

/// A key is not in the table when the first `steps` steps of its sequence
/// did not find it and the next step meets an empty bucket, or there is no
/// next step.
proof fn lemma_absent(hasher: RandomState, items: Seq<BucketItem>, cells: Seq<(bool, nat)>, bits: nat, key: u64, steps: int)
    requires
        table_ok(hasher, items, cells, bits),
        0 <= steps <= items.len(),
        forall|j: int|
            0 <= j < steps ==> items[#[trigger] position(
                bucket_of(hasher, key, items.len() as int),
                j,
                items.len() as int,
            )] != BucketItem::Value(key),
        steps < items.len() ==> items[position(
            bucket_of(hasher, key, items.len() as int),
            steps,
            items.len() as int,
        )] is Empty,
    ensures
        !holds(key_slots(items), key),
{
    let capacity = items.len() as int;
    let home = bucket_of(hasher, key, capacity);
    let slots = key_slots(items);
    if holds(slots, key) {
        let b = choose|b: int| 0 <= b < slots.len() && #[trigger] slots[b] == Some(key);
        assert(items[b] == BucketItem::Value(key));
        assert(reaches(items, home, b));
        let w = choose|w: int|
            0 <= w < items.len() && position(home, w, capacity) == b && #[trigger] path_clear(
                items,
                home,
                w,
            );
        if w < steps {
            assert(items[position(home, w, capacity)] != BucketItem::Value(key));
        } else if w > steps {
            assert(!(items[position(home, steps, capacity)] is Empty));
        }
    }
}

/// Writing a bucket that does not become empty keeps every path clear that
/// was clear.
proof fn lemma_paths_stay(
    hasher: RandomState,
    items: Seq<BucketItem>,
    bucket: int,
    item: BucketItem,
)
    requires
        0 <= bucket < items.len(),
        !(item is Empty),
    ensures
        forall|home: int, b: int|
            reaches(items, home, b) ==> #[trigger] reaches(items.update(bucket, item), home, b),
{
    let capacity = items.len() as int;
    let after = items.update(bucket, item);
    assert forall|home: int, b: int| reaches(items, home, b) implies #[trigger] reaches(
        after,
        home,
        b,
    ) by {
        let w = choose|w: int|
            0 <= w < items.len() && position(home, w, capacity) == b && #[trigger] path_clear(
                items,
                home,
                w,
            );
        assert forall|j: int| 0 <= j < w implies !(after[#[trigger] position(
            home,
            j,
            capacity,
        )] is Empty) by {
            lemma_position_range(home, j, capacity);
            assert(!(items[position(home, j, capacity)] is Empty));
        }
        assert(path_clear(after, home, w));
    }
}

/// What the metadata says of a bucket whose cell goes with it.
proof fn lemma_hints(hasher: RandomState, items: Seq<BucketItem>, meta: MetaMap, bucket: int, key: u64)
    requires
        meta.wf(),
        table_ok(hasher, items, meta@, meta.spec_bits()),
        0 <= bucket < items.len(),
    ensures
        meta.shows_empty(bucket) ==> items[bucket] is Empty,
        meta.shows_tombstone(bucket) ==> items[bucket] is Tombstone,
        meta.rules_out(bucket, keyed_hash(hasher, key)) ==> items[bucket] != BucketItem::Value(
            key,
        ),
        meta.rules_out(bucket, keyed_hash(hasher, key)) && !meta.shows_empty(bucket)
            && !meta.shows_tombstone(bucket) ==> items[bucket] is Value,
        meta.spec_bits() >= 2 && !meta.shows_empty(bucket) ==> !(items[bucket] is Empty),
{
    meta.lemma_cells();
    let bits = meta.spec_bits();
    assert(meta@[bucket] == cell_for(hasher, items[bucket], bits));
    if bits >= 2 {
        lemma_payload_cap(bits);
    }
}

/// Where the sequence lands once an insert has looked at its buckets.
enum Landing {
    /// The key is in this bucket already.
    Found(usize),
    /// The key is not in the table, and this bucket is the first without a
    /// value.
    Free(usize),
    /// The key is not in the table, and every bucket of the sequence holds a
    /// value.
    Full,
}

/// A hash set of `u64` keys probed along the triangular sequence. A table of
/// any size behaves as a set; only where the size is a power of two does the
/// sequence look at every bucket, so that an insert finds room as long as
/// there is any.
pub struct TriaProb {
    hasher: RandomState,
    buckets: Vec<BucketItem>,
    meta: MetaMap,
    len: usize,
}

impl View for TriaProb {
    type V = Set<u64>;

    open spec fn view(&self) -> Set<u64> {
        keys_of(key_slots(self.items()))
    }
}

impl TriaProb {
    /// The buckets, in order.
    pub closed spec fn items(&self) -> Seq<BucketItem> {
        self.buckets@
    }

    /// The hasher state that gives every key its home bucket.
    pub closed spec fn hasher(&self) -> RandomState {
        self.hasher
    }

    /// The metadata sidecar.
    pub closed spec fn meta(&self) -> MetaMap {
        self.meta
    }

    /// The number of keys the table counts.
    pub closed spec fn spec_len(&self) -> nat {
        self.len as nat
    }

    /// The home bucket of a key.
    pub open spec fn home(&self, key: u64) -> int {
        bucket_of(self.hasher(), key, self.items().len() as int)
    }

    /// The table has at least one bucket and one metadata cell per bucket.
    pub open spec fn shaped(&self) -> bool {
        &&& self.items().len() >= 1
        &&& self.meta().wf()
        &&& self.meta()@.len() == self.items().len()
    }

    /// The invariant of the table.
    pub open spec fn wf(&self) -> bool {
        &&& self.shaped()
        &&& self.spec_len() == occupied(key_slots(self.items()))
        &&& table_ok(self.hasher(), self.items(), self.meta()@, self.meta().spec_bits())
    }

    /// An empty table whose hasher is drawn at random.
    pub fn new(capacity: usize, meta_bits: usize) -> (table: TriaProb)
        requires
            capacity >= 1,
            meta_bits <= MAX_META_BITS,
            capacity * meta_bits <= crate::bits::max_bits(),
        ensures
            table.wf(),
            table@ == Set::<u64>::empty(),
            table.spec_len() == 0,
            table.items() == Seq::new(capacity as nat, |i: int| BucketItem::Empty),
            table.meta().spec_bits() == meta_bits,
    {
        TriaProb::build(capacity, meta_bits, crate::hashing::fresh_state())
    }

    /// An empty table whose hasher is fixed by `seed`.
    pub fn with_seed(capacity: usize, meta_bits: usize, seed: u64) -> (table: TriaProb)
        requires
            capacity >= 1,
            meta_bits <= MAX_META_BITS,
            capacity * meta_bits <= crate::bits::max_bits(),
        ensures
            table.wf(),
            table@ == Set::<u64>::empty(),
            table.spec_len() == 0,
            table.items() == Seq::new(capacity as nat, |i: int| BucketItem::Empty),
            table.meta().spec_bits() == meta_bits,
            table.hasher() == seeded_member(seed, 0),
    {
        TriaProb::build(capacity, meta_bits, crate::hashing::state_for_seed(seed, 0))
    }

    fn build(capacity: usize, meta_bits: usize, hasher: RandomState) -> (table: TriaProb)
        requires
            capacity >= 1,
            meta_bits <= MAX_META_BITS,
            capacity * meta_bits <= crate::bits::max_bits(),
        ensures
            table.wf(),
            table@ == Set::<u64>::empty(),
            table.spec_len() == 0,
            table.items() == Seq::new(capacity as nat, |i: int| BucketItem::Empty),
            table.meta().spec_bits() == meta_bits,
            table.hasher() == hasher,
    {
        let mut buckets: Vec<BucketItem> = Vec::new();
        let mut filled: usize = 0;
        while filled < capacity
            invariant
                filled <= capacity,
                buckets@ == Seq::new(filled as nat, |i: int| BucketItem::Empty),
            decreases capacity - filled,
        {
            buckets.push(BucketItem::Empty);
            filled += 1;
            assert(buckets@ =~= Seq::new(filled as nat, |i: int| BucketItem::Empty));
        }
        let table = TriaProb { hasher, buckets, meta: MetaMap::new(capacity, meta_bits), len: 0 };
        proof {
            let slots = key_slots(table.items());
            lemma_none_occupied(slots);
            assert(keys_of(slots) =~= Set::<u64>::empty());
        }
        table
    }

    /// The number of keys in the set.
    pub fn len(&self) -> (len: usize)
        requires
            self.wf(),
        ensures
            len == self@.len(),
            len == self.spec_len(),
            len <= self.items().len(),
    {
        proof {
            lemma_keys_count(key_slots(self.items()));
            lemma_occupied_bound(key_slots(self.items()));
        }
        self.len
    }

    /// The number of buckets, fixed when the table was made.
    pub fn capacity(&self) -> (capacity: usize)
        ensures
            capacity == self.items().len(),
    {
        self.buckets.len()
    }

    /// The bucket `steps` buckets after `bucket`, around the end of the table.
    pub fn step_on(bucket: usize, steps: usize, capacity: usize) -> (next: usize)
        requires
            bucket < capacity,
            steps < capacity,
        ensures
            next == offset(bucket as int, steps as int, capacity as int),
            next < capacity,
    {
        if bucket >= capacity - steps {
            bucket - (capacity - steps)
        } else {
            bucket + steps
        }
    }

    /// Walks the probe sequence of a key up to the bucket that holds it or to
    /// an empty bucket. Gives the bucket that holds the key, if one does, and
    /// the number of buckets read.
    fn probe_search(&self, key: u64) -> (found: (Option<usize>, usize))
        requires
            self.wf(),
        ensures
            match found.0 {
                Some(bucket) => bucket < self.items().len() && self.items()[bucket as int]
                    == BucketItem::Value(key),
                None => !holds(key_slots(self.items()), key),
            },
            found.1 <= self.items().len(),
            found.0 is Some ==> found.1 >= 1,
            (
                match found.0 {
                    Some(bucket) => Some(bucket as int),
                    None => None,
                },
                found.1 as nat,
            ) == search(self.hasher(), self.items(), self.meta(), key, 0),
    {
        let capacity = self.buckets.len();
        let (hash, home) = hash_to_bucket(&self.hasher, key, capacity);
        let mut bucket = home;
        let mut probes: usize = 0;
        let mut i: usize = 0;
        proof {
            lemma_first_position(home as int, capacity as int);
        }
        while i < capacity
            invariant
                self.wf(),
                capacity == self.items().len(),
                hash == keyed_hash(self.hasher(), key),
                home == self.home(key),
                home < capacity,
                i <= capacity,
                bucket < capacity,
                i < capacity ==> bucket == position(home as int, i as int, capacity as int),
                probes <= i,
                forall|j: int|
                    0 <= j < i ==> self.items()[#[trigger] position(
                        home as int,
                        j,
                        capacity as int,
                    )] != BucketItem::Value(key),
                ({
                    let whole = search(self.hasher(), self.items(), self.meta(), key, 0);
                    let rest = search(self.hasher(), self.items(), self.meta(), key, i as int);
                    whole.0 == rest.0 && whole.1 == rest.1 + probes
                }),
            decreases capacity - i,
        {
            proof {
                lemma_hints(self.hasher(), self.items(), self.meta(), bucket as int, key);
            }
            if self.meta.hint_empty(bucket) {
                proof {
                    lemma_absent(
                        self.hasher(),
                        self.items(),
                        self.meta()@,
                        self.meta().spec_bits(),
                        key,
                        i as int,
                    );
                }
                return (None, probes);
            }
            if !self.meta.hint_not_match(bucket, hash) {
                probes += 1;
                match self.buckets[bucket] {
                    BucketItem::Value(found_key) => {
                        if found_key == key {
                            return (Some(bucket), probes);
                        }
                    },
                    BucketItem::Empty => {
                        proof {
                            lemma_absent(
                                self.hasher(),
                                self.items(),
                                self.meta()@,
                                self.meta().spec_bits(),
                                key,
                                i as int,
                            );
                        }
                        return (None, probes);
                    },
                    BucketItem::Tombstone => {},
                }
            }
            i += 1;
            if i < capacity {
                proof {
                    lemma_next_position(home as int, i - 1, capacity as int);
                }
                bucket = TriaProb::step_on(bucket, i, capacity);
            }
        }
        proof {
            lemma_absent(
                self.hasher(),
                self.items(),
                self.meta()@,
                self.meta().spec_bits(),
                key,
                capacity as int,
            );
        }
        (None, probes)
    }

    /// Walks the probe sequence of a key to see whether the key is in the
    /// table, and remembers the first bucket without a value on the way. The
    /// walk does not stop at a tombstone: the key may sit further on.
    fn probe_insert(&self, key: u64) -> (found: (Landing, usize))
        requires
            self.wf(),
        ensures
            match found.0 {
                Landing::Found(bucket) => bucket < self.items().len() && self.items()[bucket as int]
                    == BucketItem::Value(key),
                Landing::Free(bucket) => {
                    &&& !holds(key_slots(self.items()), key)
                    &&& first_open(self.items(), self.home(key), 0) < self.items().len()
                    &&& bucket == position(
                        self.home(key),
                        first_open(self.items(), self.home(key), 0),
                        self.items().len() as int,
                    )
                    &&& bucket < self.items().len()
                    &&& !(self.items()[bucket as int] is Value)
                    &&& path_clear(
                        self.items(),
                        self.home(key),
                        first_open(self.items(), self.home(key), 0),
                    )
                },
                Landing::Full => !holds(key_slots(self.items()), key) && first_open(
                    self.items(),
                    self.home(key),
                    0,
                ) == self.items().len(),
            },
            found.1 <= self.items().len(),
            found.1 == scan(self.hasher(), self.items(), self.meta(), key, 0),
    {
        let capacity = self.buckets.len();
        let (hash, home) = hash_to_bucket(&self.hasher, key, capacity);
        let mut bucket = home;
        let mut probes: usize = 0;
        let mut i: usize = 0;
        let mut candidate: Option<usize> = None;
        let ghost mut spot: int = 0;
        proof {
            lemma_first_position(home as int, capacity as int);
        }
        while i < capacity
            invariant
                self.wf(),
                capacity == self.items().len(),
                hash == keyed_hash(self.hasher(), key),
                home == self.home(key),
                home < capacity,
                i <= capacity,
                bucket < capacity,
                i < capacity ==> bucket == position(home as int, i as int, capacity as int),
                probes <= i,
                forall|j: int|
                    0 <= j < i ==> self.items()[#[trigger] position(
                        home as int,
                        j,
                        capacity as int,
                    )] != BucketItem::Value(key),
                path_clear(self.items(), home as int, i as int),
                candidate is None ==> first_open(self.items(), home as int, 0) == first_open(
                    self.items(),
                    home as int,
                    i as int,
                ),
                candidate matches Some(b) ==> 0 <= spot < i && first_open(
                    self.items(),
                    home as int,
                    0,
                ) == spot && b == position(home as int, spot, capacity as int) && b < capacity
                    && !(self.items()[b as int] is Value),
                scan(self.hasher(), self.items(), self.meta(), key, 0) == scan(
                    self.hasher(),
                    self.items(),
                    self.meta(),
                    key,
                    i as int,
                ) + probes,
            decreases capacity - i,
        {
            let ghost items = self.items();
            proof {
                lemma_hints(self.hasher(), items, self.meta(), bucket as int, key);
            }
            let mut open = false;
            if self.meta.hint_empty(bucket) {
                proof {
                    lemma_absent(
                        self.hasher(),
                        items,
                        self.meta()@,
                        self.meta().spec_bits(),
                        key,
                        i as int,
                    );
                }
                return (
                    Landing::Free(
                        match candidate {
                            Some(b) => b,
                            None => bucket,
                        },
                    ),
                    probes,
                );
            } else if self.meta.hint_tombstone(bucket) {
                open = true;
            } else if !self.meta.hint_not_match(bucket, hash) {
                probes += 1;
                match self.buckets[bucket] {
                    BucketItem::Value(found_key) => {
                        if found_key == key {
                            return (Landing::Found(bucket), probes);
                        }
                    },
                    BucketItem::Empty => {
                        proof {
                            lemma_absent(
                                self.hasher(),
                                items,
                                self.meta()@,
                                self.meta().spec_bits(),
                                key,
                                i as int,
                            );
                        }
                        return (
                            Landing::Free(
                                match candidate {
                                    Some(b) => b,
                                    None => bucket,
                                },
                            ),
                            probes,
                        );
                    },
                    BucketItem::Tombstone => {
                        open = true;
                    },
                }
            }
            if open && candidate.is_none() {
                candidate = Some(bucket);
                proof {
                    spot = i as int;
                }
            }
            i += 1;
            if i < capacity {
                proof {
                    lemma_next_position(home as int, i - 1, capacity as int);
                }
                bucket = TriaProb::step_on(bucket, i, capacity);
            }
        }
        proof {
            lemma_absent(
                self.hasher(),
                self.items(),
                self.meta()@,
                self.meta().spec_bits(),
                key,
                capacity as int,
            );
        }
        match candidate {
            Some(b) => (Landing::Free(b), probes),
            None => (Landing::Full, probes),
        }
    }

    /// Writes a value or a tombstone into a bucket, and its metadata cell.
    fn set_bucket(&mut self, bucket: usize, item: BucketItem)
        requires
            old(self).shaped(),
            bucket < old(self).items().len(),
            !(item is Empty),
        ensures
            final(self).shaped(),
            final(self).hasher() == old(self).hasher(),
            final(self).spec_len() == old(self).spec_len(),
            final(self).items() == old(self).items().update(bucket as int, item),
            final(self).meta().spec_bits() == old(self).meta().spec_bits(),
            final(self).meta()@ == old(self).meta()@.update(
                bucket as int,
                cell_for(old(self).hasher(), item, old(self).meta().spec_bits()),
            ),
    {
        match item {
            BucketItem::Value(key) => {
                let hash = crate::hashing::hash_key(&self.hasher, key);
                self.meta.set_full(bucket, Metadata::Hash(hash));
            },
            BucketItem::Empty => {},
            BucketItem::Tombstone => {
                self.meta.set_tombstone(bucket);
            },
        }
        self.buckets.set(bucket, item);
    }

    /// What `probe` promises of a lookup of `key` in `table`.
    pub open spec fn probed(table: TriaProb, key: u64, probe: Probe) -> bool {
        &&& (probe.contained == table@.contains(key))
        &&& (probe.probes <= table.items().len())
        &&& (probe.contained ==> probe.probes >= 1)
        &&& (probe.probes == search(table.hasher(), table.items(), table.meta(), key, 0).1)
    }

    /// Looks a key up along its probe sequence, reading a bucket only where
    /// the metadata leaves open that the key is there.
    pub fn probe(&self, key: u64) -> (probe: Probe)
        requires
            self.wf(),
        ensures
            TriaProb::probed(*self, key, probe),
    {
        let (found, probes) = self.probe_search(key);
        proof {
            if let Some(bucket) = found {
                assert(key_slots(self.items())[bucket as int] == Some(key));
            }
        }
        Probe { contained: found.is_some(), probes }
    }

    /// What `insert` promises: how the table `after` an insert of `key` relates to the
    /// table `before` it, and what the `update` reports.
    pub open spec fn inserted(before: TriaProb, key: u64, after: TriaProb, update: Update) -> bool {
        &&& (after.wf())
        &&& (after.hasher() == before.hasher())
        &&& (after.items().len() == before.items().len())
        &&& (after.meta().spec_bits() == before.meta().spec_bits())
        &&& (update.completed == (before@.contains(key) || first_open(
                before.items(),
                before.home(key),
                0,
            ) < before.items().len()))
        &&& (before@.contains(key) || !update.completed ==> update.total_writes == 0
                && after.items() == before.items() && after.meta() == before.meta())
        &&& (!before@.contains(key) && update.completed ==> update.total_writes == 1
                && after@ == before@.insert(key) && after.items() == before.items().update(
                position(
                    before.home(key),
                    first_open(before.items(), before.home(key), 0),
                    before.items().len() as int,
                ),
                BucketItem::Value(key),
            ))
        &&& (update.total_probes <= before.items().len())
        &&& (update.total_probes == scan(before.hasher(), before.items(), before.meta(), key, 0))
    }

    /// Adds a key. A key already in the set leaves the table as it is. A new
    /// key goes into the first bucket of its probe sequence that holds no
    /// value, be it empty or a tombstone. Where every bucket of the sequence
    /// holds a value, the table stays as it is and the insert reports that it
    /// did not complete.
    pub fn insert(&mut self, key: u64) -> (update: Update)
        requires
            old(self).wf(),
        ensures
            TriaProb::inserted(*old(self), key, *final(self), update),
    {
        let (landing, probes) = self.probe_insert(key);
        let mut update = Update { total_probes: probes, total_writes: 0, completed: true };
        let ghost items = self.items();
        let ghost slots = key_slots(items);
        match landing {
            Landing::Found(bucket) => {
                proof {
                    assert(slots[bucket as int] == Some(key));
                }
            },
            Landing::Full => {
                update.completed = false;
            },
            Landing::Free(bucket) => {
                let item = BucketItem::Value(key);
                proof {
                    assert(slots[bucket as int] is None);
                    lemma_keys_update(slots, bucket as int, Some(key));
                    lemma_occupied_update(slots, bucket as int, Some(key));
                    lemma_occupied_bound(slots);
                    lemma_paths_stay(self.hasher(), items, bucket as int, item);
                    assert(key_slots(items.update(bucket as int, item)) =~= slots.update(
                        bucket as int,
                        Some(key),
                    ));
                }
                assert(self.buckets.len() <= usize::MAX);
                self.set_bucket(bucket, item);
                self.len += 1;
                update.total_writes = 1;
                proof {
                    let after = self.items();
                    let open = first_open(items, self.home(key), 0);
                    lemma_paths_stay(self.hasher(), items, bucket as int, item);
                    assert(path_clear(after, self.home(key), open)) by {
                        assert forall|j: int| 0 <= j < open implies !(after[#[trigger] position(
                            self.home(key),
                            j,
                            after.len() as int,
                        )] is Empty) by {
                            lemma_position_range(self.home(key), j, after.len() as int);
                            assert(!(items[position(self.home(key), j, items.len() as int)] is Empty));
                        }
                    }
                    assert(reaches(after, self.home(key), bucket as int));
                    assert forall|b: int| 0 <= b < after.len() implies ((
                    #[trigger] after[b]) matches BucketItem::Value(k) ==> reaches(
                        after,
                        bucket_of(self.hasher(), k, after.len() as int),
                        b,
                    )) by {
                        if b != bucket {
                            assert(items[b] == after[b]);
                        }
                    }
                }
            },
        }
        update
    }

    /// What `remove` promises: how the table `after` a removal of `key` relates to the
    /// table `before` it, and what the `update` reports.
    pub open spec fn removed(before: TriaProb, key: u64, after: TriaProb, update: Update) -> bool {
        &&& (after.wf())
        &&& (after.hasher() == before.hasher())
        &&& (after.items().len() == before.items().len())
        &&& (after.meta().spec_bits() == before.meta().spec_bits())
        &&& (after@ == before@.remove(key))
        &&& (update.completed == before@.contains(key))
        &&& (update.total_writes == if before@.contains(key) {
                1usize
            } else {
                0usize
            })
        &&& (forall|i: int|
                0 <= i < before.items().len() ==> #[trigger] after.items()[i] == if before.items()[i] == BucketItem::Value(key) {
                    BucketItem::Tombstone
                } else {
                    before.items()[i]
                })
        &&& (!before@.contains(key) ==> after.meta() == before.meta())
        &&& (update.total_probes <= before.items().len())
        &&& (update.total_probes == search(
            before.hasher(),
            before.items(),
            before.meta(),
            key,
            0,
        ).1)
    }

    /// Removes a key: leaves a tombstone in the bucket that holds it. The
    /// update reports that it did not complete when the key was not there.
    pub fn remove(&mut self, key: u64) -> (update: Update)
        requires
            old(self).wf(),
        ensures
            TriaProb::removed(*old(self), key, *final(self), update),
    {
        let (found, probes) = self.probe_search(key);
        let mut update = Update { total_probes: probes, total_writes: 0, completed: true };
        let ghost items = self.items();
        let ghost slots = key_slots(items);
        match found {
            None => {
                update.completed = false;
                proof {
                    assert(self@ =~= old(self)@.remove(key));
                    assert forall|i: int| 0 <= i < items.len() implies items[i]
                        != BucketItem::Value(key) by {
                        if items[i] == BucketItem::Value(key) {
                            assert(slots[i] == Some(key));
                        }
                    }
                }
            },
            Some(bucket) => {
                let item = BucketItem::Tombstone;
                proof {
                    assert(slots[bucket as int] == Some(key));
                    lemma_keys_update(slots, bucket as int, None);
                    lemma_occupied_update(slots, bucket as int, None);
                    lemma_occupied_bound(slots);
                    lemma_paths_stay(self.hasher(), items, bucket as int, item);
                    assert(key_slots(items.update(bucket as int, item)) =~= slots.update(
                        bucket as int,
                        None,
                    ));
                    assert forall|i: int| 0 <= i < items.len() && i != bucket implies items[i]
                        != BucketItem::Value(key) by {
                        if items[i] == BucketItem::Value(key) {
                            assert(slots[i] == slots[bucket as int]);
                        }
                    }
                }
                self.set_bucket(bucket, item);
                self.len -= 1;
                update.total_writes = 1;
                proof {
                    let after = self.items();
                    assert forall|b: int| 0 <= b < after.len() implies ((
                    #[trigger] after[b]) matches BucketItem::Value(k) ==> reaches(
                        after,
                        bucket_of(self.hasher(), k, after.len() as int),
                        b,
                    )) by {
                        if b != bucket {
                            assert(items[b] == after[b]);
                        }
                    }
                }
            },
        }
        update
    }
}

/// Where every bucket holds a value, no step of a probe sequence is open.
pub proof fn lemma_no_open_step(items: Seq<BucketItem>, home: int, from: int)
    requires
        items.len() > 0,
        0 <= from,
        forall|b: int| 0 <= b < items.len() ==> (#[trigger] items[b]) is Value,
    ensures
        first_open(items, home, from) == items.len(),
    decreases items.len() - from,
{
    if from < items.len() {
        lemma_position_range(home, from, items.len() as int);
        lemma_no_open_step(items, home, from + 1);
    }
}

/// Metadata never adds a read: from any step on, a lookup that consults
/// cells that go with the buckets reads no more buckets than one that
/// consults a map without bits.
pub proof fn lemma_cells_save_reads(
    hasher: RandomState,
    items: Seq<BucketItem>,
    blind: MetaMap,
    sighted: MetaMap,
    key: u64,
    from: int,
)
    requires
        blind.spec_bits() == 0,
        sighted@.len() == items.len(),
        forall|i: int|
            0 <= i < items.len() ==> #[trigger] sighted@[i] == cell_for(
                hasher,
                items[i],
                sighted.spec_bits(),
            ),
    ensures
        search(hasher, items, sighted, key, from).1 <= search(hasher, items, blind, key, from).1,
    decreases items.len() - from,
{
    let capacity = items.len() as int;
    if 0 <= from < capacity {
        lemma_cells_save_reads(hasher, items, blind, sighted, key, from + 1);
        let bucket = position(bucket_of(hasher, key, capacity), from, capacity);
        lemma_position_range(bucket_of(hasher, key, capacity), from, capacity);
        assert(sighted@[bucket] == cell_for(hasher, items[bucket], sighted.spec_bits()));
    }
}

/// Where a step from `from` on looks at a bucket without a value, the first
/// open step comes no later.
pub proof fn lemma_open_step(items: Seq<BucketItem>, home: int, from: int, step: int)
    requires
        0 <= from <= step < items.len(),
        !(items[position(home, step, items.len() as int)] is Value),
    ensures
        first_open(items, home, from) <= step,
    decreases step - from,
{
    if from < step {
        lemma_open_step(items, home, from + 1, step);
    }
}

impl TriaProb {
    /// The count of a table is the number of keys in its set, and no more
    /// than the number of buckets.
    pub proof fn law_len_counts_keys(table: TriaProb)
        requires
            table.wf(),
        ensures
            table@.finite(),
            table.spec_len() == table@.len(),
            table.spec_len() <= table.items().len(),
    {
        lemma_keys_count(key_slots(table.items()));
        lemma_occupied_bound(key_slots(table.items()));
    }

    /// A key whose insert completed is found by the next lookup, which reads
    /// at least one bucket and no more buckets than the table has.
    pub proof fn law_inserted_key_is_found(
        before: TriaProb,
        key: u64,
        after: TriaProb,
        update: Update,
        probe: Probe,
    )
        requires
            before.wf(),
            TriaProb::inserted(before, key, after, update),
            update.completed,
            TriaProb::probed(after, key, probe),
        ensures
            probe.contained,
            1 <= probe.probes <= after.items().len(),
            after.items().len() <= MAX_CHAIN ==> probe.probes <= MAX_CHAIN,
    {
    }

    /// A key that is not in the set is not found.
    pub proof fn law_absent_key_is_not_found(table: TriaProb, key: u64, probe: Probe)
        requires
            table.wf(),
            !table@.contains(key),
            TriaProb::probed(table, key, probe),
        ensures
            !probe.contained,
    {
    }

    /// A key that was just removed is not found.
    pub proof fn law_removed_key_is_not_found(
        before: TriaProb,
        key: u64,
        after: TriaProb,
        update: Update,
        probe: Probe,
    )
        requires
            before.wf(),
            TriaProb::removed(before, key, after, update),
            TriaProb::probed(after, key, probe),
        ensures
            !probe.contained,
    {
    }

    /// Inserting a key again, after an insert of it that completed, completes,
    /// writes nothing and leaves the table and its count as they are.
    pub proof fn law_second_insert_changes_nothing(
        before: TriaProb,
        key: u64,
        between: TriaProb,
        first: Update,
        after: TriaProb,
        second: Update,
    )
        requires
            before.wf(),
            TriaProb::inserted(before, key, between, first),
            first.completed,
            TriaProb::inserted(between, key, after, second),
        ensures
            second.completed,
            second.total_writes == 0,
            after.items() == between.items(),
            after.meta() == between.meta(),
            after.spec_len() == between.spec_len(),
    {
    }

    /// Inserting a new key and removing it again gives back the set and the
    /// count, where the insert completed; the bucket keeps a tombstone.
    pub proof fn law_insert_then_remove(
        before: TriaProb,
        key: u64,
        between: TriaProb,
        first: Update,
        after: TriaProb,
        second: Update,
    )
        requires
            before.wf(),
            !before@.contains(key),
            TriaProb::inserted(before, key, between, first),
            first.completed,
            TriaProb::removed(between, key, after, second),
        ensures
            after@ == before@,
            after.spec_len() == before.spec_len(),
            !after@.contains(key),
            second.completed,
            second.total_writes == 1,
    {
        assert(after@ =~= before@);
        TriaProb::law_len_counts_keys(before);
        TriaProb::law_len_counts_keys(after);
    }

    /// Some step of the probe sequence of a key looks at the bucket that holds
    /// it, and no step before that one meets an empty bucket.
    pub proof fn law_no_empty_before_a_key(table: TriaProb, bucket: int, key: u64)
        requires
            table.wf(),
            0 <= bucket < table.items().len(),
            table.items()[bucket] == BucketItem::Value(key),
        ensures
            exists|i: int|
                0 <= i < table.items().len() && position(
                    table.home(key),
                    i,
                    table.items().len() as int,
                ) == bucket && forall|j: int|
                    0 <= j < i ==> !(table.items()[#[trigger] position(
                        table.home(key),
                        j,
                        table.items().len() as int,
                    )] is Empty),
    {
        let items = table.items();
        assert(reaches(items, table.home(key), bucket));
        let i = choose|i: int|
            0 <= i < items.len() && position(table.home(key), i, items.len() as int) == bucket
                && #[trigger] path_clear(items, table.home(key), i);
        assert(path_clear(items, table.home(key), i));
    }

    /// An insert that changes the table writes at least one bucket.
    pub proof fn law_change_costs_a_write(
        before: TriaProb,
        key: u64,
        after: TriaProb,
        update: Update,
    )
        requires
            before.wf(),
            TriaProb::inserted(before, key, after, update),
            after.items() != before.items(),
        ensures
            update.total_writes >= 1,
    {
    }

    /// Lookups and counts depend on the set alone: two tables that hold the
    /// same keys give the same answers, whatever their hashers.
    pub proof fn law_same_keys_same_answers(
        one: TriaProb,
        other: TriaProb,
        key: u64,
        probe_one: Probe,
        probe_other: Probe,
    )
        requires
            one.wf(),
            other.wf(),
            one@ == other@,
            TriaProb::probed(one, key, probe_one),
            TriaProb::probed(other, key, probe_other),
        ensures
            probe_one.contained == probe_other.contained,
            one.spec_len() == other.spec_len(),
    {
        TriaProb::law_len_counts_keys(one);
        TriaProb::law_len_counts_keys(other);
    }

    /// Two tables with the same hasher and the same buckets are left with the
    /// same buckets by the same insert, which reports the same on both.
    pub proof fn law_same_table_after_insert(
        one: TriaProb,
        other: TriaProb,
        key: u64,
        one_after: TriaProb,
        other_after: TriaProb,
        update_one: Update,
        update_other: Update,
    )
        requires
            one.wf(),
            other.wf(),
            one.hasher() == other.hasher(),
            one.items() == other.items(),
            one.meta().spec_bits() == other.meta().spec_bits(),
            TriaProb::inserted(one, key, one_after, update_one),
            TriaProb::inserted(other, key, other_after, update_other),
        ensures
            update_one == update_other,
            one_after.items() == other_after.items(),
            one_after@ == other_after@,
    {
        TriaProb::lemma_same_walk(one, other, key);
    }

    /// Two tables with the same hasher, the same buckets and the same
    /// metadata width walk alike for every key.
    proof fn lemma_same_walk(one: TriaProb, other: TriaProb, key: u64)
        requires
            one.wf(),
            other.wf(),
            one.hasher() == other.hasher(),
            one.items() == other.items(),
            one.meta().spec_bits() == other.meta().spec_bits(),
        ensures
            search(one.hasher(), one.items(), one.meta(), key, 0) == search(
                other.hasher(),
                other.items(),
                other.meta(),
                key,
                0,
            ),
            scan(one.hasher(), one.items(), one.meta(), key, 0) == scan(
                other.hasher(),
                other.items(),
                other.meta(),
                key,
                0,
            ),
    {
        assert(one.meta()@ =~= other.meta()@);
        lemma_same_cells_same_walk(one.hasher(), one.items(), one.meta(), other.meta(), key, 0);
    }

    /// Two tables with the same hasher, the same buckets and the same
    /// metadata width are left with the same buckets by the same removal,
    /// which reports the same on both.
    pub proof fn law_same_table_after_remove(
        one: TriaProb,
        other: TriaProb,
        key: u64,
        one_after: TriaProb,
        other_after: TriaProb,
        update_one: Update,
        update_other: Update,
    )
        requires
            one.wf(),
            other.wf(),
            one.hasher() == other.hasher(),
            one.items() == other.items(),
            one.meta().spec_bits() == other.meta().spec_bits(),
            TriaProb::removed(one, key, one_after, update_one),
            TriaProb::removed(other, key, other_after, update_other),
        ensures
            update_one == update_other,
            one_after.items() == other_after.items(),
    {
        TriaProb::lemma_same_walk(one, other, key);
        assert(one_after.items() =~= other_after.items());
    }


    /// Two tables with the same hasher, the same buckets and the same
    /// metadata width answer the same lookup alike, reads included.
    pub proof fn law_same_table_same_probe(
        one: TriaProb,
        other: TriaProb,
        key: u64,
        probe_one: Probe,
        probe_other: Probe,
    )
        requires
            one.wf(),
            other.wf(),
            one.hasher() == other.hasher(),
            one.items() == other.items(),
            one.meta().spec_bits() == other.meta().spec_bits(),
            TriaProb::probed(one, key, probe_one),
            TriaProb::probed(other, key, probe_other),
        ensures
            probe_one == probe_other,
    {
        TriaProb::lemma_same_walk(one, other, key);
    }

    /// Whether `states`, `steps` and `updates` tell one history of a table:
    /// each step, an insert where its flag is set and a removal where it is
    /// not, leads from one state to the next and reports its update.
    pub open spec fn history(
        states: Seq<TriaProb>,
        steps: Seq<(bool, u64)>,
        updates: Seq<Update>,
    ) -> bool {
        &&& states.len() == steps.len() + 1
        &&& updates.len() == steps.len()
        &&& forall|i: int|
            0 <= i < steps.len() ==> if (#[trigger] steps[i]).0 {
                TriaProb::inserted(states[i], steps[i].1, states[i + 1], updates[i])
            } else {
                TriaProb::removed(states[i], steps[i].1, states[i + 1], updates[i])
            }
    }

    /// Two histories of the same steps that start alike stay alike up to
    /// step `upto`.
    proof fn lemma_histories_agree(
        steps: Seq<(bool, u64)>,
        one: Seq<TriaProb>,
        other: Seq<TriaProb>,
        updates_one: Seq<Update>,
        updates_other: Seq<Update>,
        upto: int,
    )
        requires
            TriaProb::history(one, steps, updates_one),
            TriaProb::history(other, steps, updates_other),
            one[0].wf(),
            other[0].wf(),
            one[0].hasher() == other[0].hasher(),
            one[0].items() == other[0].items(),
            one[0].meta().spec_bits() == other[0].meta().spec_bits(),
            0 <= upto <= steps.len(),
        ensures
            one[upto].wf(),
            other[upto].wf(),
            one[upto].hasher() == other[upto].hasher(),
            one[upto].items() == other[upto].items(),
            one[upto].meta().spec_bits() == other[upto].meta().spec_bits(),
            forall|i: int| 0 <= i < upto ==> updates_one[i] == updates_other[i],
        decreases upto,
    {
        if upto > 0 {
            let last = upto - 1;
            TriaProb::lemma_histories_agree(steps, one, other, updates_one, updates_other, last);
            let step = steps[last];
            if step.0 {
                TriaProb::law_same_table_after_insert(
                    one[last],
                    other[last],
                    step.1,
                    one[last + 1],
                    other[last + 1],
                    updates_one[last],
                    updates_other[last],
                );
            } else {
                TriaProb::law_same_table_after_remove(
                    one[last],
                    other[last],
                    step.1,
                    one[last + 1],
                    other[last + 1],
                    updates_one[last],
                    updates_other[last],
                );
            }
        }
    }

    /// Two tables built with the same capacity, metadata width and seed, and
    /// then taken through the same inserts and removals, report the same
    /// updates and hold the same buckets, the same keys and the same count
    /// after every step.
    pub proof fn law_same_seed_same_history(
        seed: u64,
        steps: Seq<(bool, u64)>,
        one: Seq<TriaProb>,
        other: Seq<TriaProb>,
        updates_one: Seq<Update>,
        updates_other: Seq<Update>,
    )
        requires
            TriaProb::history(one, steps, updates_one),
            TriaProb::history(other, steps, updates_other),
            one[0].wf(),
            other[0].wf(),
            one[0].hasher() == seeded_member(seed, 0),
            other[0].hasher() == seeded_member(seed, 0),
            one[0].items() == other[0].items(),
            one[0].meta().spec_bits() == other[0].meta().spec_bits(),
        ensures
            updates_one == updates_other,
            forall|i: int|
                0 <= i <= steps.len() ==> (#[trigger] one[i]).items() == other[i].items()
                    && one[i]@ == other[i]@ && one[i].spec_len() == other[i].spec_len(),
    {
        assert forall|i: int| 0 <= i <= steps.len() implies (#[trigger] one[i]).items()
            == other[i].items() && one[i]@ == other[i]@ && one[i].spec_len()
            == other[i].spec_len() by {
            TriaProb::lemma_histories_agree(steps, one, other, updates_one, updates_other, i);
            TriaProb::law_len_counts_keys(one[i]);
            TriaProb::law_len_counts_keys(other[i]);
        }
        TriaProb::lemma_histories_agree(
            steps,
            one,
            other,
            updates_one,
            updates_other,
            steps.len() as int,
        );
        assert(updates_one =~= updates_other);
    }

    /// Metadata never adds a read: a lookup in a table without metadata bits
    /// reads at least as many buckets as a lookup in a table with the same
    /// buckets and any metadata, and both give the same answer.
    pub proof fn law_metadata_saves_reads(
        blind: TriaProb,
        sighted: TriaProb,
        key: u64,
        probe_blind: Probe,
        probe_sighted: Probe,
    )
        requires
            blind.wf(),
            sighted.wf(),
            blind.hasher() == sighted.hasher(),
            blind.items() == sighted.items(),
            blind.meta().spec_bits() == 0,
            TriaProb::probed(blind, key, probe_blind),
            TriaProb::probed(sighted, key, probe_sighted),
        ensures
            probe_sighted.contained == probe_blind.contained,
            probe_sighted.probes <= probe_blind.probes,
    {
        lemma_cells_save_reads(
            sighted.hasher(),
            sighted.items(),
            blind.meta(),
            sighted.meta(),
            key,
            0,
        );
    }

    /// In a table whose size is a power of two the probe sequence of a key
    /// looks at every bucket, so an insert of a new key completes as long as
    /// one bucket is left without a value.
    pub proof fn law_power_of_two_has_room(
        before: TriaProb,
        key: u64,
        after: TriaProb,
        update: Update,
    )
        requires
            before.wf(),
            power_of_two(before.items().len() as int),
            before.spec_len() < before.items().len(),
            !before@.contains(key),
            TriaProb::inserted(before, key, after, update),
        ensures
            update.completed,
            update.total_writes == 1,
            after@ == before@.insert(key),
            after.spec_len() == before.spec_len() + 1,
    {
        let items = before.items();
        let capacity = items.len() as int;
        let home = before.home(key);
        let slots = key_slots(items);
        lemma_occupied_bound(slots);
        let bucket = choose|b: int| 0 <= b < slots.len() && !((#[trigger] slots[b]) is Some);
        assert(!(items[bucket] is Value));
        vstd::arithmetic::div_mod::lemma_mod_bound(
            keyed_hash(before.hasher(), key) as int,
            capacity,
        );
        law_every_bucket_is_visited(home, bucket, capacity);
        let step = choose|i: int|
            0 <= i < capacity && #[trigger] position(home, i, capacity) == bucket;
        lemma_open_step(items, home, 0, step);
        TriaProb::law_len_counts_keys(before);
        TriaProb::law_len_counts_keys(after);
    }

    /// An insert of a new key into a table whose every bucket holds a value
    /// does not complete and leaves the table as it is.
    pub proof fn law_full_table_rejects(
        before: TriaProb,
        key: u64,
        after: TriaProb,
        update: Update,
    )
        requires
            before.wf(),
            before.spec_len() == before.items().len(),
            !before@.contains(key),
            TriaProb::inserted(before, key, after, update),
        ensures
            !update.completed,
            update.total_writes == 0,
            after.items() == before.items(),
            after.meta() == before.meta(),
    {
        let items = before.items();
        let slots = key_slots(items);
        lemma_occupied_bound(slots);
        assert forall|b: int| 0 <= b < items.len() implies (#[trigger] items[b]) is Value by {
            assert(slots[b] is Some);
        }
        lemma_no_open_step(items, before.home(key), 0);
    }

    /// Removing a key that is not in the set writes nothing, leaves the table
    /// as it is, and reports that it did not complete.
    pub proof fn law_remove_of_absent_key(
        before: TriaProb,
        key: u64,
        after: TriaProb,
        update: Update,
    )
        requires
            before.wf(),
            !before@.contains(key),
            TriaProb::removed(before, key, after, update),
        ensures
            !update.completed,
            update.total_writes == 0,
            after.items() == before.items(),
            after.meta() == before.meta(),
    {
        let items = before.items();
        assert forall|i: int| 0 <= i < items.len() implies items[i] != BucketItem::Value(key) by {
            if items[i] == BucketItem::Value(key) {
                assert(key_slots(items)[i] == Some(key));
            }
        }
        assert(after.items() =~= before.items());
    }
}

} // verus!
