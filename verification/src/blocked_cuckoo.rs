//! Blocked cuckoo hashing: the table is cut into blocks of 107 slots, every
//! key has two blocks, and it may sit in any slot of either. An insert that
//! finds both blocks full evicts a key from a random slot and moves it to its
//! other block. There is no metadata sidecar.

use crate::cuckoo::{alternatives_of, two_choices, HASHER_COUNT};
use crate::hashing::{hasher_family, seeded_family};
use crate::random::{fresh_rng, random_below, seeded_rng};
use crate::slots::{
    distinct, empty_slots, holds, keys_of, lemma_holds_at, lemma_keys_count, lemma_keys_update,
    lemma_occupied_bound, lemma_occupied_update, occupied, slot_is,
};
use crate::telemetry::{Probe, Update, MAX_CHAIN};
use ahash::RandomState;
use rand::rngs::StdRng;
use vstd::prelude::*;

verus! {

/// The number of slots in a block.
pub const BUCKET_PER_BLOCK: usize = 107;

/// The block a slot belongs to.
pub open spec fn block_of(slot: int) -> int {
    slot / (BUCKET_PER_BLOCK as int)
}

/// Whether a slot of the block holds the key.
pub open spec fn in_block(slots: Seq<Option<u64>>, block: int, key: u64) -> bool {
    exists|i: int|
        0 <= i < slots.len() && block_of(i) == block && #[trigger] slots[i] == Some(key)
}

/// The first empty slot from `from` on and before `to`; `to` if there is none.
pub open spec fn first_gap(slots: Seq<Option<u64>>, from: int, to: int) -> int
    decreases to - from,
{
    if from >= to {
        to
    } else if slots[from] is None {
        from
    } else {
        first_gap(slots, from + 1, to)
    }
}

/// The first empty slot of a block, if it has one.
pub open spec fn gap_of(slots: Seq<Option<u64>>, block: int) -> Option<int> {
    let start = block * BUCKET_PER_BLOCK as int;
    let end = start + BUCKET_PER_BLOCK as int;
    if first_gap(slots, start, end) < end {
        Some(first_gap(slots, start, end))
    } else {
        None
    }
}

/// Every slot of the block holds a key.
pub open spec fn block_full(slots: Seq<Option<u64>>, block: int) -> bool {
    forall|i: int| 0 <= i < slots.len() && block_of(i) == block ==> (#[trigger] slots[i]) is Some
}

/// Every key sits in one of its two blocks, in one slot only.
pub open spec fn table_ok(hashers: Seq<RandomState>, slots: Seq<Option<u64>>, blocks: int) -> bool {
    &&& distinct(slots)
    &&& forall|i: int|
        0 <= i < slots.len() ==> ((#[trigger] slots[i]) matches Some(key) ==> {
            let (first, second) = alternatives_of(hashers, key, blocks);
            block_of(i) == first || block_of(i) == second
        })
}

/// The state of an eviction chain: the slots, the key it carries, the block
/// the key is to take a slot of, the slots written and the blocks looked
/// through so far, and whether the chain has found a free slot and ended.
pub struct Chain {
    pub slots: Seq<Option<u64>>,
    pub active: u64,
    pub target: int,
    pub writes: nat,
    pub reads: nat,
    pub done: bool,
}

/// The slot of a block that a draw picks: the draw, modulo the size of a
/// block, counts from the block's first slot.
pub open spec fn picked_slot(block: int, pick: usize) -> int {
    block * BUCKET_PER_BLOCK as int + pick as int % BUCKET_PER_BLOCK as int
}

/// One move of an eviction chain. A chain that has ended stays as it is.
/// Otherwise the carried key takes the slot of its target block that `pick`
/// picks. The key it evicts goes to its own other block: into the first free
/// slot there, which ends the chain, or, where that block is full, on as the
/// next carried key. A move looks through one block.
pub open spec fn step(hashers: Seq<RandomState>, blocks: int, chain: Chain, pick: usize) -> Chain {
    let slot = picked_slot(chain.target, pick);
    let found = chain.slots[slot]->0;
    let taken = chain.slots.update(slot, Some(chain.active));
    let (first, second) = alternatives_of(hashers, found, blocks);
    let next = if first == chain.target {
        second
    } else {
        first
    };
    if chain.done {
        chain
    } else {
        match gap_of(taken, next) {
            Some(free) => Chain {
                slots: taken.update(free, Some(found)),
                active: found,
                target: next,
                writes: chain.writes + 2,
                reads: chain.reads + 1,
                done: true,
            },
            None => Chain {
                slots: taken,
                active: found,
                target: next,
                writes: chain.writes + 1,
                reads: chain.reads + 1,
                done: false,
            },
        }
    }
}

/// The chain after one move for each pick, in order.
pub open spec fn run(hashers: Seq<RandomState>, blocks: int, start: Chain, picks: Seq<usize>) -> Chain
    decreases picks.len(),
{
    if picks.len() == 0 {
        start
    } else {
        step(hashers, blocks, run(hashers, blocks, start, picks.drop_last()), picks.last())
    }
}

/// A chain that has ended is not changed by further picks.
pub proof fn lemma_done_stays(
    hashers: Seq<RandomState>,
    blocks: int,
    start: Chain,
    picks: Seq<usize>,
    more: Seq<usize>,
)
    requires
        run(hashers, blocks, start, picks).done,
    ensures
        run(hashers, blocks, start, picks + more) == run(hashers, blocks, start, picks),
    decreases more.len(),
{
    if more.len() == 0 {
        assert(picks + more =~= picks);
    } else {
        lemma_done_stays(hashers, blocks, start, picks, more.drop_last());
        assert((picks + more).drop_last() =~= picks + more.drop_last());
    }
}

/// A hash set of `u64` keys in blocks of 107 slots, two blocks per key.
pub struct BlockedCuckoo {
    hashers: Vec<RandomState>,
    buckets: Vec<Option<u64>>,
    blocks: usize,
    len: usize,
    rng: StdRng,
}

impl View for BlockedCuckoo {
    type V = Set<u64>;

    open spec fn view(&self) -> Set<u64> {
        keys_of(self.slots())
    }
}

impl BlockedCuckoo {
    /// The slots, block after block.
    pub closed spec fn slots(&self) -> Seq<Option<u64>> {
        self.buckets@
    }

    /// The hasher states, the first of which gives the first block.
    pub closed spec fn hashers(&self) -> Seq<RandomState> {
        self.hashers@
    }

    /// The number of blocks.
    pub closed spec fn block_count(&self) -> nat {
        self.blocks as nat
    }

    /// The number of keys the table counts.
    pub closed spec fn spec_len(&self) -> nat {
        self.len as nat
    }

    /// The two blocks of a key.
    pub open spec fn alternatives(&self, key: u64) -> (int, int) {
        alternatives_of(self.hashers(), key, self.block_count() as int)
    }

    /// The table has its hashers and at least two whole blocks.
    pub open spec fn shaped(&self) -> bool {
        &&& self.hashers().len() == HASHER_COUNT
        &&& self.block_count() >= 2
        &&& self.slots().len() == self.block_count() * BUCKET_PER_BLOCK
    }

    /// The invariant of the table.
    pub open spec fn wf(&self) -> bool {
        &&& self.shaped()
        &&& self.spec_len() == occupied(self.slots())
        &&& table_ok(self.hashers(), self.slots(), self.block_count() as int)
    }

    /// The slot a new key goes to without an eviction: the first empty slot
    /// of its first block, or else of its second block.
    pub open spec fn free_slot(&self, key: u64) -> Option<int> {
        let (first, second) = self.alternatives(key);
        if gap_of(self.slots(), first) is Some {
            gap_of(self.slots(), first)
        } else {
            gap_of(self.slots(), second)
        }
    }

    /// An empty table of `capacity / 107` blocks whose hashers and eviction
    /// choices are drawn at random. Slots beyond the last whole block are
    /// left out.
    pub fn new(capacity: usize) -> (table: BlockedCuckoo)
        requires
            capacity >= 2 * BUCKET_PER_BLOCK,
        ensures
            table.wf(),
            table@ == Set::<u64>::empty(),
            table.spec_len() == 0,
            table.block_count() == capacity / BUCKET_PER_BLOCK,
            table.slots() == Seq::new(
                (capacity / BUCKET_PER_BLOCK * BUCKET_PER_BLOCK) as nat,
                |i: int| None::<u64>,
            ),
    {
        let n_blocks = capacity / BUCKET_PER_BLOCK;
        BlockedCuckoo {
            hashers: hasher_family(HASHER_COUNT, None),
            buckets: empty_slots(n_blocks * BUCKET_PER_BLOCK),
            blocks: n_blocks,
            len: 0,
            rng: fresh_rng(),
        }
    }

    /// An empty table of `capacity / 107` blocks whose hashers and eviction
    /// choices are fixed by `seed`.
    pub fn with_seed(capacity: usize, seed: u64) -> (table: BlockedCuckoo)
        requires
            capacity >= 2 * BUCKET_PER_BLOCK,
        ensures
            table.wf(),
            table@ == Set::<u64>::empty(),
            table.spec_len() == 0,
            table.block_count() == capacity / BUCKET_PER_BLOCK,
            table.slots() == Seq::new(
                (capacity / BUCKET_PER_BLOCK * BUCKET_PER_BLOCK) as nat,
                |i: int| None::<u64>,
            ),
            table.hashers() == seeded_family(seed, HASHER_COUNT as nat),
    {
        let n_blocks = capacity / BUCKET_PER_BLOCK;
        BlockedCuckoo {
            hashers: hasher_family(HASHER_COUNT, Some(seed)),
            buckets: empty_slots(n_blocks * BUCKET_PER_BLOCK),
            blocks: n_blocks,
            len: 0,
            rng: seeded_rng(seed),
        }
    }

    /// The two blocks of a key.
    fn blocks(&self, key: u64) -> (pair: (usize, usize))
        requires
            self.shaped(),
        ensures
            (pair.0 as int, pair.1 as int) == self.alternatives(key),
            pair.0 < self.block_count(),
            pair.1 < self.block_count(),
            pair.0 != pair.1,
    {
        let (_, block_a, block_b) = two_choices(&self.hashers, key, self.blocks);
        (block_a, block_b)
    }

    /// The slot at a position of a block.
    fn slot_at(&self, block: usize, index: usize) -> (slot: usize)
        requires
            self.shaped(),
            block < self.block_count(),
            index < BUCKET_PER_BLOCK,
        ensures
            slot == block * BUCKET_PER_BLOCK + index,
            slot < self.slots().len(),
            block_of(slot as int) == block,
    {
        let total = self.buckets.len();
        assert(block * BUCKET_PER_BLOCK + index < total);
        block * BUCKET_PER_BLOCK + index
    }

    /// Looks through a block for a key. Gives the slot that holds it, if one
    /// does.
    fn search(&self, block: usize, key: u64) -> (found: Option<usize>)
        requires
            self.shaped(),
            block < self.block_count(),
        ensures
            match found {
                Some(slot) => slot < self.slots().len() && block_of(slot as int) == block
                    && self.slots()[slot as int] == Some(key),
                None => !in_block(self.slots(), block as int, key),
            },
    {
        let ghost start = block * BUCKET_PER_BLOCK;
        let mut index: usize = 0;
        while index < BUCKET_PER_BLOCK
            invariant
                self.shaped(),
                block < self.block_count(),
                start == block * BUCKET_PER_BLOCK,
                index <= BUCKET_PER_BLOCK,
                forall|i: int| start <= i < start + index ==> self.slots()[i] != Some(key),
            decreases BUCKET_PER_BLOCK - index,
        {
            let slot = self.slot_at(block, index);
            if slot_is(&self.buckets[slot], key) {
                return Some(slot);
            }
            index += 1;
        }
        None
    }

    /// Looks through a block for its first empty slot.
    fn first_free(&self, block: usize) -> (gap: Option<usize>)
        requires
            self.shaped(),
            block < self.block_count(),
        ensures
            gap matches Some(slot) ==> slot < self.slots().len() && block_of(slot as int) == block
                && self.slots()[slot as int] is None,
            gap is None ==> block_full(self.slots(), block as int),
            match gap {
                Some(slot) => gap_of(self.slots(), block as int) == Some(slot as int),
                None => gap_of(self.slots(), block as int) is None,
            },
    {
        let ghost start = block * BUCKET_PER_BLOCK;
        let ghost end = start + BUCKET_PER_BLOCK;
        let mut index: usize = 0;
        while index < BUCKET_PER_BLOCK
            invariant
                self.shaped(),
                block < self.block_count(),
                start == block * BUCKET_PER_BLOCK,
                end == start + BUCKET_PER_BLOCK,
                index <= BUCKET_PER_BLOCK,
                forall|i: int| start <= i < start + index ==> (#[trigger] self.slots()[i]) is Some,
                first_gap(self.slots(), start as int, end as int) == first_gap(
                    self.slots(),
                    start + index,
                    end as int,
                ),
            decreases BUCKET_PER_BLOCK - index,
        {
            let slot = self.slot_at(block, index);
            if self.buckets[slot].is_none() {
                return Some(slot);
            }
            index += 1;
        }
        None
    }

    /// The number of keys in the set.
    pub fn len(&self) -> (len: usize)
        requires
            self.wf(),
        ensures
            len == self@.len(),
            len == self.spec_len(),
            len <= self.slots().len(),
    {
        proof {
            lemma_keys_count(self.slots());
            lemma_occupied_bound(self.slots());
        }
        self.len
    }

    /// The number of slots: 107 per block.
    pub fn capacity(&self) -> (capacity: usize)
        requires
            self.shaped(),
        ensures
            capacity == self.slots().len(),
            capacity == self.block_count() * BUCKET_PER_BLOCK,
    {
        self.buckets.len()
    }

    /// A key of the set sits in one of its two blocks.
    pub proof fn lemma_where(&self, key: u64)
        requires
            self.wf(),
        ensures
            self@.contains(key) <==> (in_block(self.slots(), self.alternatives(key).0, key)
                || in_block(self.slots(), self.alternatives(key).1, key)),
    {
        let slots = self.slots();
        if self@.contains(key) {
            let i = choose|i: int| 0 <= i < slots.len() && #[trigger] slots[i] == Some(key);
            assert(block_of(i) == self.alternatives(key).0 || block_of(i) == self.alternatives(
                key,
            ).1);
        }
    }

    /// What `probe` promises of a lookup of `key` in `table`.
    pub open spec fn probed(table: BlockedCuckoo, key: u64, probe: Probe) -> bool {
        &&& (probe.contained == table@.contains(key))
        &&& (probe.probes == if in_block(table.slots(), table.alternatives(key).0, key) {
                1usize
            } else {
                2usize
            })
    }

    /// Looks a key up in its first block, then in its second. `probes` counts
    /// the blocks looked through.
    pub fn probe(&self, key: u64) -> (probe: Probe)
        requires
            self.wf(),
        ensures
            BlockedCuckoo::probed(*self, key, probe),
    {
        let (block_a, block_b) = self.blocks(key);
        proof {
            self.lemma_where(key);
        }
        if self.search(block_a, key).is_some() {
            return Probe { contained: true, probes: 1 };
        }
        if self.search(block_b, key).is_some() {
            return Probe { contained: true, probes: 2 };
        }
        Probe { contained: false, probes: 2 }
    }

    /// Puts a key that is not in the table into an empty slot of one of its
    /// blocks.
    fn place(&mut self, slot: usize, key: u64)
        requires
            old(self).wf(),
            slot < old(self).slots().len(),
            old(self).slots()[slot as int] is None,
            !holds(old(self).slots(), key),
            block_of(slot as int) == old(self).alternatives(key).0 || block_of(slot as int) == old(
                self,
            ).alternatives(key).1,
        ensures
            final(self).wf(),
            final(self).hashers() == old(self).hashers(),
            final(self).block_count() == old(self).block_count(),
            final(self).slots() == old(self).slots().update(slot as int, Some(key)),
            final(self)@ == old(self)@.insert(key),
    {
        proof {
            lemma_keys_update(self.slots(), slot as int, Some(key));
            lemma_occupied_update(self.slots(), slot as int, Some(key));
            lemma_occupied_bound(self.slots());
        }
        assert(self.buckets.len() <= usize::MAX);
        self.buckets.set(slot, Some(key));
        self.len += 1;
    }

    /// The chain that an insert of `key` starts with where both blocks of the
    /// key are full: the key, bound for its first block.
    pub open spec fn chain_start(&self, key: u64) -> Chain {
        Chain {
            slots: self.slots(),
            active: key,
            target: self.alternatives(key).0,
            writes: 0,
            reads: 0,
            done: false,
        }
    }

    /// The exact outcome of an insert whose evictions follow `picks`. A key
    /// that is in the set is left where it is. A new key goes into the free
    /// slot of its blocks, after a look through both. Where there is none, the
    /// table and the counts are those of the eviction chain; the insert
    /// completes where the chain has found a free slot when the picks run out.
    pub open spec fn insert_outcome(
        &self,
        key: u64,
        picks: Seq<usize>,
        after: BlockedCuckoo,
        update: Update,
    ) -> bool {
        if self@.contains(key) {
            &&& after.slots() == self.slots()
            &&& update.completed
            &&& update.total_writes == 0
            &&& update.total_probes == if in_block(self.slots(), self.alternatives(key).0, key) {
                1usize
            } else {
                2usize
            }
        } else {
            match self.free_slot(key) {
                Some(slot) => {
                    &&& after.slots() == self.slots().update(slot, Some(key))
                    &&& update.completed
                    &&& update.total_writes == 1
                    &&& update.total_probes == 2
                },
                None => {
                    let end = run(
                        self.hashers(),
                        self.block_count() as int,
                        self.chain_start(key),
                        picks,
                    );
                    &&& after.slots() == end.slots
                    &&& update.completed == end.done
                    &&& update.total_writes == end.writes
                    &&& update.total_probes == 2 + end.reads
                },
            }
        }
    }

    /// What `insert` promises: how the table `after` an insert of `key` relates to the
    /// table `before` it, and what the `update` reports, whatever the picks.
    pub open spec fn inserted(
        before: BlockedCuckoo,
        key: u64,
        after: BlockedCuckoo,
        update: Update,
    ) -> bool {
        &&& (after.wf())
        &&& (after.hashers() == before.hashers())
        &&& (after.block_count() == before.block_count())
        &&& (before@.contains(key) ==> update.completed && update.total_writes == 0 && after.slots()
            == before.slots())
        &&& (!before@.contains(key) && update.completed ==> after@ == before@.insert(key) && 1
            <= update.total_writes <= MAX_CHAIN + 1)
        &&& (!before@.contains(key) ==> (before.free_slot(key) matches Some(slot)
            ==> update.completed && update.total_writes == 1 && update.total_probes == 2
            && after.slots() == before.slots().update(slot, Some(key))))
        &&& (!update.completed ==> update.total_writes == MAX_CHAIN && exists|lost: u64|
            before@.insert(key).contains(lost) && after@ == before@.insert(key).remove(lost))
        &&& (1 <= update.total_probes <= MAX_CHAIN + 2)
        &&& (exists|picks: Seq<usize>|
            picks.len() == MAX_CHAIN && #[trigger] before.insert_outcome(key, picks, after, update))
    }

    /// Looks for a key in its two blocks, and for the free slot a new key would
    /// take. Gives the update of an insert that needs no eviction, or `None`
    /// where the key is new and both blocks are full.
    fn settle(&mut self, key: u64, block_a: usize, block_b: usize) -> (update: Option<Update>)
        requires
            old(self).wf(),
            (block_a as int, block_b as int) == old(self).alternatives(key),
            block_a < old(self).block_count(),
            block_b < old(self).block_count(),
        ensures
            final(self).wf(),
            final(self).hashers() == old(self).hashers(),
            final(self).block_count() == old(self).block_count(),
            match update {
                Some(update) => {
                    &&& old(self)@.contains(key) || old(self).free_slot(key) is Some
                    &&& forall|picks: Seq<usize>|
                        #[trigger] old(self).insert_outcome(key, picks, *final(self), update)
                    &&& update.completed
                    &&& !old(self)@.contains(key) ==> final(self)@ == old(self)@.insert(key)
                },
                None => {
                    &&& !old(self)@.contains(key)
                    &&& old(self).free_slot(key) is None
                    &&& block_full(old(self).slots(), block_a as int)
                    &&& *final(self) == *old(self)
                },
            },
    {
        proof {
            self.lemma_where(key);
        }
        if self.search(block_a, key).is_some() {
            return Some(Update { total_probes: 1, total_writes: 0, completed: true });
        }
        if self.search(block_b, key).is_some() {
            return Some(Update { total_probes: 2, total_writes: 0, completed: true });
        }
        let gap_a = self.first_free(block_a);
        let gap = if gap_a.is_some() {
            gap_a
        } else {
            self.first_free(block_b)
        };
        match gap {
            Some(slot) => {
                self.place(slot, key);
                Some(Update { total_probes: 2, total_writes: 1, completed: true })
            },
            None => None,
        }
    }

    /// Places a key that is in neither of its blocks, both of which are full,
    /// by evictions. The picks for the evictions are the given ones, or drawn
    /// at random where none are given. Gives the update and the picks that
    /// were used.
    #[verifier::rlimit(60)]
    fn chain(&mut self, key: u64, block_a: usize, given: Option<&Vec<usize>>) -> (end: (
        Update,
        Ghost<Seq<usize>>,
    ))
        requires
            old(self).wf(),
            !old(self)@.contains(key),
            old(self).free_slot(key) is None,
            block_a == old(self).alternatives(key).0,
            block_a < old(self).block_count(),
            block_full(old(self).slots(), block_a as int),
            given matches Some(picks) ==> picks.len() == MAX_CHAIN,
        ensures
            final(self).wf(),
            final(self).hashers() == old(self).hashers(),
            final(self).block_count() == old(self).block_count(),
            ({
                let update = end.0;
                let used = end.1@;
                let last = run(
                    old(self).hashers(),
                    old(self).block_count() as int,
                    old(self).chain_start(key),
                    used,
                );
                &&& used.len() <= MAX_CHAIN
                &&& (last.done || used.len() == MAX_CHAIN)
                &&& (given matches Some(picks) ==> forall|i: int|
                    0 <= i < used.len() ==> used[i] == picks@[i])
                &&& final(self).slots() == last.slots
                &&& update.completed == last.done
                &&& update.total_writes == last.writes
                &&& update.total_probes == 2 + last.reads
                &&& (update.completed ==> final(self)@ == old(self)@.insert(key) && 1
                    <= update.total_writes <= MAX_CHAIN + 1)
                &&& (!update.completed ==> update.total_writes == MAX_CHAIN && exists|lost: u64|
                    old(self)@.insert(key).contains(lost) && final(self)@ == old(self)@.insert(
                        key,
                    ).remove(lost))
                &&& 1 <= update.total_probes <= MAX_CHAIN + 2
            }),
    {
        let mut update = Update { total_probes: 2, total_writes: 0, completed: true };
        let ghost before = *self;
        let ghost start = self.chain_start(key);
        let ghost hashers = self.hashers();
        let ghost blocks = self.block_count() as int;
        let ghost mut drawn: Seq<usize> = Seq::empty();
        let mut active_key = key;
        let mut target_block = block_a;
        let mut steps: usize = 0;
        while steps < MAX_CHAIN
            invariant
                before == *old(self),
                before.wf(),
                start == before.chain_start(key),
                hashers == before.hashers(),
                blocks == before.block_count(),
                self.wf(),
                self.hashers() == before.hashers(),
                self.block_count() == before.block_count(),
                steps <= MAX_CHAIN,
                given matches Some(picks) ==> picks.len() == MAX_CHAIN,
                target_block < self.block_count(),
                target_block == self.alternatives(active_key).0 || target_block
                    == self.alternatives(active_key).1,
                block_full(self.slots(), target_block as int),
                !holds(self.slots(), active_key),
                !before@.contains(key),
                steps == 0 ==> self.slots() == before.slots() && active_key == key,
                steps > 0 ==> before@.insert(key).contains(active_key) && self@
                    == before@.insert(key).remove(active_key),
                drawn.len() == steps,
                given matches Some(picks) ==> forall|i: int|
                    0 <= i < drawn.len() ==> drawn[i] == picks@[i],
                ({
                    let now = run(hashers, blocks, start, drawn);
                    &&& !now.done
                    &&& now.slots == self.slots()
                    &&& now.active == active_key
                    &&& now.target == target_block
                    &&& now.writes == update.total_writes
                    &&& now.reads + 2 == update.total_probes
                }),
                update.completed,
                update.total_writes == steps,
                update.total_probes == steps + 2,
            decreases MAX_CHAIN - steps,
        {
            let ghost slots = self.slots();
            let ghost now = run(hashers, blocks, start, drawn);
            let pick = match given {
                Some(picks) => picks[steps],
                None => random_below(&mut self.rng, BUCKET_PER_BLOCK),
            };
            let slot = self.slot_at(target_block, pick % BUCKET_PER_BLOCK);
            proof {
                let longer = drawn.push(pick);
                assert(longer.drop_last() =~= drawn);
                assert(run(hashers, blocks, start, longer) == step(hashers, blocks, now, pick));
                drawn = longer;
            }
            match self.buckets[slot] {
                None => {
                    // Unreachable: the target block is full.
                    assert(false);
                },
                Some(swap_key) => {
                    proof {
                        lemma_holds_at(slots, slot as int, swap_key);
                        lemma_keys_update(slots, slot as int, Some(active_key));
                        lemma_occupied_update(slots, slot as int, Some(active_key));
                    }
                    self.buckets.set(slot, Some(active_key));
                    update.total_writes += 1;
                    let (swap_a, swap_b) = self.blocks(swap_key);
                    proof {
                        assert(self@ =~= before@.insert(key).remove(swap_key));
                        assert(!holds(self.slots(), swap_key)) by {
                            assert(!self@.contains(swap_key));
                        }
                    }
                    target_block = if swap_a == target_block {
                        swap_b
                    } else {
                        swap_a
                    };
                    update.total_probes += 1;
                    if let Some(free) = self.first_free(target_block) {
                        self.place(free, swap_key);
                        update.total_writes += 1;
                        proof {
                            assert(self@ =~= before@.insert(key));
                        }
                        return (update, Ghost(drawn));
                    }
                    active_key = swap_key;
                },
            }
            steps += 1;
        }
        update.completed = false;
        (update, Ghost(drawn))
    }

    /// Adds a key. A key already in the set leaves the table as it is. A new
    /// key goes into the first empty slot of its first block, or else of its
    /// second. Where both blocks are full it takes a random slot of the first,
    /// and the key it evicts moves to its own other block, evicting in turn
    /// where that block is full, for at most `MAX_CHAIN` evictions. When those
    /// run out, the key last evicted is dropped and the insert reports that
    /// it did not complete. `total_probes` counts the blocks looked through.
    pub fn insert(&mut self, key: u64) -> (update: Update)
        requires
            old(self).wf(),
        ensures
            BlockedCuckoo::inserted(*old(self), key, *final(self), update),
    {
        let (block_a, block_b) = self.blocks(key);
        if let Some(update) = self.settle(key, block_a, block_b) {
            proof {
                let picks = Seq::new(MAX_CHAIN as nat, |i: int| 0usize);
                assert(old(self).insert_outcome(key, picks, *self, update));
            }
            return update;
        }
        let (update, used) = self.chain(key, block_a, None);
        proof {
            let before = *old(self);
            let rest = Seq::new((MAX_CHAIN - used@.len()) as nat, |i: int| 0usize);
            let picks = used@ + rest;
            let start = before.chain_start(key);
            if run(before.hashers(), before.block_count() as int, start, used@).done {
                lemma_done_stays(before.hashers(), before.block_count() as int, start, used@, rest);
            } else {
                assert(picks =~= used@);
            }
            assert(before.insert_outcome(key, picks, *self, update));
        }
        update
    }

    /// Adds a key as `insert` does, with the evictions picked by `picks` in
    /// place of random draws: the first eviction goes by the first pick, and so
    /// on. A pick counts through the slots of a block, modulo their number.
    pub fn insert_drawn(&mut self, key: u64, picks: &Vec<usize>) -> (update: Update)
        requires
            old(self).wf(),
            picks.len() == MAX_CHAIN,
        ensures
            BlockedCuckoo::inserted(*old(self), key, *final(self), update),
            old(self).insert_outcome(key, picks@, *final(self), update),
    {
        let (block_a, block_b) = self.blocks(key);
        if let Some(update) = self.settle(key, block_a, block_b) {
            proof {
                assert(old(self).insert_outcome(key, picks@, *self, update));
            }
            return update;
        }
        let (update, used) = self.chain(key, block_a, Some(picks));
        proof {
            let before = *old(self);
            let rest = picks@.subrange(used@.len() as int, MAX_CHAIN as int);
            let start = before.chain_start(key);
            assert(picks@ =~= used@ + rest);
            if run(before.hashers(), before.block_count() as int, start, used@).done {
                lemma_done_stays(before.hashers(), before.block_count() as int, start, used@, rest);
            }
            assert(before.insert_outcome(key, picks@, *self, update));
        }
        update
    }

    /// What `remove` promises: how the table `after` a removal of `key` relates to the
    /// table `before` it, and what the `update` reports.
    pub open spec fn removed(before: BlockedCuckoo, key: u64, after: BlockedCuckoo, update: Update) -> bool {
        &&& (after.wf())
        &&& (after.hashers() == before.hashers())
        &&& (after.block_count() == before.block_count())
        &&& (after@ == before@.remove(key))
        &&& (update.completed)
        &&& (update.total_probes == if in_block(
                before.slots(),
                before.alternatives(key).0,
                key,
            ) {
                1usize
            } else {
                2usize
            })
        &&& (update.total_writes == if before@.contains(key) {
                1usize
            } else {
                0usize
            })
        &&& (!before@.contains(key) ==> after.slots() == before.slots())
        &&& (forall|i: int|
            0 <= i < before.slots().len() ==> #[trigger] after.slots()[i] == if before.slots()[i]
                == Some(key) {
                None
            } else {
                before.slots()[i]
            })
    }

    /// Removes a key: empties the slot that holds it, if one does.
    /// `total_probes` counts the blocks looked through.
    pub fn remove(&mut self, key: u64) -> (update: Update)
        requires
            old(self).wf(),
        ensures
            BlockedCuckoo::removed(*old(self), key, *final(self), update),
    {
        let (block_a, block_b) = self.blocks(key);
        let mut update = Update { total_probes: 1, total_writes: 0, completed: true };
        proof {
            self.lemma_where(key);
        }
        let mut found = self.search(block_a, key);
        if found.is_none() {
            update.total_probes = 2;
            found = self.search(block_b, key);
        }
        match found {
            Some(slot) => {
                proof {
                    lemma_keys_update(self.slots(), slot as int, None);
                    lemma_occupied_update(self.slots(), slot as int, None);
                    lemma_occupied_bound(self.slots());
                }
                self.buckets.set(slot, None);
                self.len -= 1;
                update.total_writes = 1;
            },
            None => {
                proof {
                    assert(self@ =~= old(self)@.remove(key));
                }
            },
        }
        update
    }
}

impl BlockedCuckoo {
    /// The count of a table is the number of keys in its set, and no more
    /// than the number of buckets.
    pub proof fn law_len_counts_keys(table: BlockedCuckoo)
        requires
            table.wf(),
        ensures
            table@.finite(),
            table.spec_len() == table@.len(),
            table.spec_len() <= table.slots().len(),
    {
        lemma_keys_count(table.slots());
        lemma_occupied_bound(table.slots());
    }

    /// A key whose insert completed is found by the next lookup, which looks
    /// through one block or two.
    pub proof fn law_inserted_key_is_found(
        before: BlockedCuckoo,
        key: u64,
        after: BlockedCuckoo,
        update: Update,
        probe: Probe,
    )
        requires
            before.wf(),
            BlockedCuckoo::inserted(before, key, after, update),
            update.completed,
            BlockedCuckoo::probed(after, key, probe),
        ensures
            probe.contained,
            1 <= probe.probes <= 2,
            probe.probes <= MAX_CHAIN,
    {
    }

    /// A key that is not in the set is not found.
    pub proof fn law_absent_key_is_not_found(table: BlockedCuckoo, key: u64, probe: Probe)
        requires
            table.wf(),
            !table@.contains(key),
            BlockedCuckoo::probed(table, key, probe),
        ensures
            !probe.contained,
    {
    }

    /// A key that was just removed is not found.
    pub proof fn law_removed_key_is_not_found(
        before: BlockedCuckoo,
        key: u64,
        after: BlockedCuckoo,
        update: Update,
        probe: Probe,
    )
        requires
            before.wf(),
            BlockedCuckoo::removed(before, key, after, update),
            BlockedCuckoo::probed(after, key, probe),
        ensures
            !probe.contained,
    {
    }

    /// Inserting a key again, after an insert of it that completed, completes,
    /// writes nothing and leaves the table and its count as they are.
    pub proof fn law_second_insert_changes_nothing(
        before: BlockedCuckoo,
        key: u64,
        between: BlockedCuckoo,
        first: Update,
        after: BlockedCuckoo,
        second: Update,
    )
        requires
            before.wf(),
            BlockedCuckoo::inserted(before, key, between, first),
            first.completed,
            BlockedCuckoo::inserted(between, key, after, second),
        ensures
            second.completed,
            second.total_writes == 0,
            after.slots() == between.slots(),
            after.spec_len() == between.spec_len(),
    {
    }

    /// Inserting a new key and removing it again gives back the set and the
    /// count, where the insert completed.
    pub proof fn law_insert_then_remove(
        before: BlockedCuckoo,
        key: u64,
        between: BlockedCuckoo,
        first: Update,
        after: BlockedCuckoo,
        second: Update,
    )
        requires
            before.wf(),
            !before@.contains(key),
            BlockedCuckoo::inserted(before, key, between, first),
            first.completed,
            BlockedCuckoo::removed(between, key, after, second),
        ensures
            after@ == before@,
            after.spec_len() == before.spec_len(),
            !after@.contains(key),
            second.completed,
            second.total_writes == 1,
    {
        assert(after@ =~= before@);
        BlockedCuckoo::law_len_counts_keys(before);
        BlockedCuckoo::law_len_counts_keys(after);
    }

    /// Every key sits in a slot of one of its two blocks.
    pub proof fn law_keys_sit_in_their_buckets(table: BlockedCuckoo, bucket: int, key: u64)
        requires
            table.wf(),
            0 <= bucket < table.slots().len(),
            table.slots()[bucket] == Some(key),
        ensures
            block_of(bucket) == table.alternatives(key).0 || block_of(bucket) == table.alternatives(
                key,
            ).1,
    {
    }

    /// An insert that changes the table writes at least one slot.
    pub proof fn law_change_costs_a_write(before: BlockedCuckoo, key: u64, after: BlockedCuckoo, update: Update)
        requires
            before.wf(),
            BlockedCuckoo::inserted(before, key, after, update),
            after.slots() != before.slots(),
        ensures
            update.total_writes >= 1,
    {
    }

    /// Lookups and counts depend on the set alone: two tables that hold the
    /// same keys give the same answers, whatever their hashers.
    pub proof fn law_same_keys_same_answers(
        one: BlockedCuckoo,
        other: BlockedCuckoo,
        key: u64,
        probe_one: Probe,
        probe_other: Probe,
    )
        requires
            one.wf(),
            other.wf(),
            one@ == other@,
            BlockedCuckoo::probed(one, key, probe_one),
            BlockedCuckoo::probed(other, key, probe_other),
        ensures
            probe_one.contained == probe_other.contained,
            one.spec_len() == other.spec_len(),
    {
        BlockedCuckoo::law_len_counts_keys(one);
        BlockedCuckoo::law_len_counts_keys(other);
    }

    /// Two tables that hold the same keys hold the same keys after the same
    /// insert, where it completes on both.
    pub proof fn law_same_keys_after_insert(
        one: BlockedCuckoo,
        other: BlockedCuckoo,
        key: u64,
        one_after: BlockedCuckoo,
        other_after: BlockedCuckoo,
        update_one: Update,
        update_other: Update,
    )
        requires
            one.wf(),
            other.wf(),
            one@ == other@,
            BlockedCuckoo::inserted(one, key, one_after, update_one),
            BlockedCuckoo::inserted(other, key, other_after, update_other),
            update_one.completed,
            update_other.completed,
        ensures
            one_after@ == other_after@,
            one_after.spec_len() == other_after.spec_len(),
    {
        BlockedCuckoo::law_len_counts_keys(one_after);
        BlockedCuckoo::law_len_counts_keys(other_after);
    }

    /// Two tables with the same hashers and the same slots are left with the
    /// same slots by the same insert with the same picks, which reports the
    /// same on both.
    pub proof fn law_same_picks_same_outcome(
        one: BlockedCuckoo,
        other: BlockedCuckoo,
        key: u64,
        picks: Seq<usize>,
        one_after: BlockedCuckoo,
        other_after: BlockedCuckoo,
        update_one: Update,
        update_other: Update,
    )
        requires
            one.wf(),
            other.wf(),
            one.hashers() == other.hashers(),
            one.slots() == other.slots(),
            one.insert_outcome(key, picks, one_after, update_one),
            other.insert_outcome(key, picks, other_after, update_other),
        ensures
            update_one == update_other,
            one_after.slots() == other_after.slots(),
    {
    }

    /// Two tables with the same hashers and the same buckets
    /// are left with the same buckets by the same removal,
    /// which reports the same on both.
    pub proof fn law_same_table_after_remove(
        one: BlockedCuckoo,
        other: BlockedCuckoo,
        key: u64,
        one_after: BlockedCuckoo,
        other_after: BlockedCuckoo,
        update_one: Update,
        update_other: Update,
    )
        requires
            one.wf(),
            other.wf(),
            one.hashers() == other.hashers(),
            one.slots() == other.slots(),
            BlockedCuckoo::removed(one, key, one_after, update_one),
            BlockedCuckoo::removed(other, key, other_after, update_other),
        ensures
            update_one == update_other,
            one_after.slots() == other_after.slots(),
    {
        assert(one_after.slots() =~= other_after.slots());
    }

    /// Two tables with the same hashers and the same buckets
    /// answer the same lookup alike, reads included.
    pub proof fn law_same_table_same_probe(
        one: BlockedCuckoo,
        other: BlockedCuckoo,
        key: u64,
        probe_one: Probe,
        probe_other: Probe,
    )
        requires
            one.wf(),
            other.wf(),
            one.hashers() == other.hashers(),
            one.slots() == other.slots(),
            BlockedCuckoo::probed(one, key, probe_one),
            BlockedCuckoo::probed(other, key, probe_other),
        ensures
            probe_one == probe_other,
    {
    }

    /// Whether `states`, `steps`, `picks` and `updates` tell one history of a
    /// table: each step, an insert where its flag is set and a removal where
    /// it is not, leads from one state to the next and reports its update,
    /// and an insert evicts by the picks that go with its step.
    pub open spec fn history(
        states: Seq<BlockedCuckoo>,
        steps: Seq<(bool, u64)>,
        picks: Seq<Seq<usize>>,
        updates: Seq<Update>,
    ) -> bool {
        &&& states.len() == steps.len() + 1
        &&& updates.len() == steps.len()
        &&& picks.len() == steps.len()
        &&& forall|i: int|
            0 <= i < steps.len() ==> if (#[trigger] steps[i]).0 {
                BlockedCuckoo::inserted(states[i], steps[i].1, states[i + 1], updates[i])
                    && states[i].insert_outcome(steps[i].1, picks[i], states[i + 1], updates[i])
            } else {
                BlockedCuckoo::removed(states[i], steps[i].1, states[i + 1], updates[i])
            }
    }

    /// Two histories of the same steps and picks that start alike stay alike
    /// up to step `upto`.
    proof fn lemma_histories_agree(
        steps: Seq<(bool, u64)>,
        picks: Seq<Seq<usize>>,
        one: Seq<BlockedCuckoo>,
        other: Seq<BlockedCuckoo>,
        updates_one: Seq<Update>,
        updates_other: Seq<Update>,
        upto: int,
    )
        requires
            BlockedCuckoo::history(one, steps, picks, updates_one),
            BlockedCuckoo::history(other, steps, picks, updates_other),
            one[0].wf(),
            other[0].wf(),
            one[0].hashers() == other[0].hashers(),
            one[0].slots() == other[0].slots(),
            0 <= upto <= steps.len(),
        ensures
            one[upto].wf(),
            other[upto].wf(),
            one[upto].hashers() == other[upto].hashers(),
            one[upto].slots() == other[upto].slots(),
            forall|i: int| 0 <= i < upto ==> updates_one[i] == updates_other[i],
        decreases upto,
    {
        if upto > 0 {
            let last = upto - 1;
            BlockedCuckoo::lemma_histories_agree(
                steps,
                picks,
                one,
                other,
                updates_one,
                updates_other,
                last,
            );
            let step = steps[last];
            if step.0 {
                BlockedCuckoo::law_same_picks_same_outcome(
                    one[last],
                    other[last],
                    step.1,
                    picks[last],
                    one[last + 1],
                    other[last + 1],
                    updates_one[last],
                    updates_other[last],
                );
            } else {
                BlockedCuckoo::law_same_table_after_remove(
                    one[last],
                    other[last],
                    step.1,
                    one[last + 1],
                    other[last + 1],
                    updates_one[last],
                    updates_other[last],
                );
            }
        }
    }

    /// Two tables built with the same capacity and seed, and
    /// then taken through the same inserts and removals with the same picks,
    /// report the same updates and hold the same buckets, the same keys and
    /// the same count after every step.
    pub proof fn law_same_seed_same_history(
        seed: u64,
        steps: Seq<(bool, u64)>,
        picks: Seq<Seq<usize>>,
        one: Seq<BlockedCuckoo>,
        other: Seq<BlockedCuckoo>,
        updates_one: Seq<Update>,
        updates_other: Seq<Update>,
    )
        requires
            BlockedCuckoo::history(one, steps, picks, updates_one),
            BlockedCuckoo::history(other, steps, picks, updates_other),
            one[0].wf(),
            other[0].wf(),
            one[0].hashers() == seeded_family(seed, HASHER_COUNT as nat),
            other[0].hashers() == seeded_family(seed, HASHER_COUNT as nat),
            one[0].slots() == other[0].slots(),
        ensures
            updates_one == updates_other,
            forall|i: int|
                0 <= i <= steps.len() ==> (#[trigger] one[i]).slots() == other[i].slots()
                    && one[i]@ == other[i]@ && one[i].spec_len() == other[i].spec_len(),
    {
        assert forall|i: int| 0 <= i <= steps.len() implies (#[trigger] one[i]).slots()
            == other[i].slots() && one[i]@ == other[i]@ && one[i].spec_len()
            == other[i].spec_len() by {
            BlockedCuckoo::lemma_histories_agree(steps, picks, one, other, updates_one, updates_other, i);
            BlockedCuckoo::law_len_counts_keys(one[i]);
            BlockedCuckoo::law_len_counts_keys(other[i]);
        }
        BlockedCuckoo::lemma_histories_agree(
            steps,
            picks,
            one,
            other,
            updates_one,
            updates_other,
            steps.len() as int,
        );
        assert(updates_one =~= updates_other);
    }

    /// An insert of a new key into a table without an empty slot does not
    /// complete: one key of the set, or the new key, is dropped, and the count
    /// stays.
    pub proof fn law_full_table_rejects(before: BlockedCuckoo, key: u64, after: BlockedCuckoo, update: Update)
        requires
            before.wf(),
            before.spec_len() == before.slots().len(),
            !before@.contains(key),
            BlockedCuckoo::inserted(before, key, after, update),
        ensures
            !update.completed,
            after.spec_len() == before.spec_len(),
    {
        BlockedCuckoo::law_len_counts_keys(before);
        BlockedCuckoo::law_len_counts_keys(after);
        if !update.completed {
            let lost = choose|lost: u64|
                before@.insert(key).contains(lost) && after@ == before@.insert(key).remove(lost);
            assert(before@.insert(key).remove(lost).len() == before@.len());
        }
    }

    /// Removing a key that is not in the set completes, writes nothing and
    /// leaves the table as it is.
    pub proof fn law_remove_of_absent_key(before: BlockedCuckoo, key: u64, after: BlockedCuckoo, update: Update)
        requires
            before.wf(),
            !before@.contains(key),
            BlockedCuckoo::removed(before, key, after, update),
        ensures
            update.completed,
            update.total_writes == 0,
            after.slots() == before.slots(),
    {
    }
}

} // verus!
