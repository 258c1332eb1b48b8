//! The model the engines share: a table is a sequence of slots, each empty or
//! holding one key, and the set it stands for is the set of keys in its slots.

use vstd::prelude::*;

verus! {

/// Whether some slot holds `key`.
pub open spec fn holds(slots: Seq<Option<u64>>, key: u64) -> bool {
    exists|i: int| 0 <= i < slots.len() && #[trigger] slots[i] == Some(key)
}

/// The set of keys in the slots.
pub open spec fn keys_of(slots: Seq<Option<u64>>) -> Set<u64> {
    Set::new(|key: u64| holds(slots, key))
}

/// No key sits in two slots.
pub open spec fn distinct(slots: Seq<Option<u64>>) -> bool {
    forall|i: int, j: int|
        0 <= i < slots.len() && 0 <= j < slots.len() && (#[trigger] slots[i]) is Some && slots[i]
            == #[trigger] slots[j] ==> i == j
}

/// The number of slots that hold a key.
pub open spec fn occupied(slots: Seq<Option<u64>>) -> nat
    decreases slots.len(),
{
    if slots.len() == 0 {
        0
    } else {
        occupied(slots.drop_last()) + if slots.last() is Some {
            1nat
        } else {
            0nat
        }
    }
}

/// 1 for a slot with a key, 0 for an empty one.
pub open spec fn weight(slot: Option<u64>) -> nat {
    if slot is Some {
        1
    } else {
        0
    }
}

/// A set without the key of a slot, if the slot has one.
pub open spec fn without(keys: Set<u64>, slot: Option<u64>) -> Set<u64> {
    match slot {
        Some(key) => keys.remove(key),
        None => keys,
    }
}

/// A set with the key of a slot, if the slot has one.
pub open spec fn with(keys: Set<u64>, slot: Option<u64>) -> Set<u64> {
    match slot {
        Some(key) => keys.insert(key),
        None => keys,
    }
}

/// Writing one slot changes the count by what the slot gains or loses.
pub proof fn lemma_occupied_update(slots: Seq<Option<u64>>, i: int, slot: Option<u64>)
    requires
        0 <= i < slots.len(),
    ensures
        occupied(slots.update(i, slot)) + weight(slots[i]) == occupied(slots) + weight(slot),
    decreases slots.len(),
{
    let after = slots.update(i, slot);
    if i == slots.len() - 1 {
        assert(after.drop_last() =~= slots.drop_last());
    } else {
        lemma_occupied_update(slots.drop_last(), i, slot);
        assert(after.drop_last() =~= slots.drop_last().update(i, slot));
    }
}

/// There are as many occupied slots as slots exactly when none is empty.
pub proof fn lemma_occupied_bound(slots: Seq<Option<u64>>)
    ensures
        occupied(slots) <= slots.len(),
        occupied(slots) == slots.len() <==> (forall|i: int|
            0 <= i < slots.len() ==> (#[trigger] slots[i]) is Some),
    decreases slots.len(),
{
    if slots.len() > 0 {
        let front = slots.drop_last();
        lemma_occupied_bound(front);
        if occupied(slots) == slots.len() {
            assert forall|i: int| 0 <= i < slots.len() implies (#[trigger] slots[i]) is Some by {
                if i < slots.len() - 1 {
                    assert(front[i] == slots[i]);
                }
            }
        }
        if forall|i: int| 0 <= i < slots.len() ==> (#[trigger] slots[i]) is Some {
            assert(slots.last() == slots[slots.len() - 1]);
            assert forall|i: int| 0 <= i < front.len() implies (#[trigger] front[i]) is Some by {
                assert(front[i] == slots[i]);
            }
        }
    }
}

/// Where no key sits twice, the set of keys is finite and has one element per
/// occupied slot.
pub proof fn lemma_keys_count(slots: Seq<Option<u64>>)
    requires
        distinct(slots),
    ensures
        keys_of(slots).finite(),
        keys_of(slots).len() == occupied(slots),
    decreases slots.len(),
{
    if slots.len() == 0 {
        assert(keys_of(slots) =~= Set::<u64>::empty());
    } else {
        let front = slots.drop_last();
        let last = slots.len() - 1;
        assert forall|i: int, j: int|
            0 <= i < front.len() && 0 <= j < front.len() && (#[trigger] front[i]) is Some
                && front[i] == #[trigger] front[j] implies i == j by {
            assert(front[i] == slots[i] && front[j] == slots[j]);
        }
        lemma_keys_count(front);
        assert forall|key: u64| holds(front, key) implies holds(slots, key) by {
            let i = choose|i: int| 0 <= i < front.len() && #[trigger] front[i] == Some(key);
            assert(slots[i] == Some(key));
        }
        assert forall|key: u64| holds(slots, key) && slots[last] != Some(key) implies holds(
            front,
            key,
        ) by {
            let i = choose|i: int| 0 <= i < slots.len() && #[trigger] slots[i] == Some(key);
            assert(front[i] == Some(key));
        }
        match slots[last] {
            Some(key) => {
                if holds(front, key) {
                    let i = choose|i: int| 0 <= i < front.len() && #[trigger] front[i] == Some(key);
                    assert(slots[i] == slots[last]);
                }
                assert(slots[last] == Some(key));
                assert(keys_of(slots) =~= keys_of(front).insert(key));
            },
            None => {
                assert(keys_of(slots) =~= keys_of(front));
            },
        }
    }
}

/// Writing a slot, with a key that sits nowhere or with nothing, keeps the
/// keys apart and changes the set by the key that left and the key that came.
pub proof fn lemma_keys_update(slots: Seq<Option<u64>>, i: int, slot: Option<u64>)
    requires
        distinct(slots),
        0 <= i < slots.len(),
        slot matches Some(key) ==> !holds(slots, key),
    ensures
        distinct(slots.update(i, slot)),
        keys_of(slots.update(i, slot)) == with(without(keys_of(slots), slots[i]), slot),
{
    let after = slots.update(i, slot);
    assert forall|a: int, b: int|
        0 <= a < after.len() && 0 <= b < after.len() && (#[trigger] after[a]) is Some && after[a]
            == #[trigger] after[b] implies a == b by {
        if a != i && b != i {
            assert(slots[a] == slots[b]);
        } else if a != b {
            let other = if a == i {
                b
            } else {
                a
            };
            assert(slots[other] == slot);
        }
    }
    let expected = with(without(keys_of(slots), slots[i]), slot);
    assert forall|key: u64| keys_of(after).contains(key) <==> expected.contains(key) by {
        if holds(after, key) {
            let a = choose|a: int| 0 <= a < after.len() && #[trigger] after[a] == Some(key);
            if a != i {
                assert(slots[a] == Some(key));
                if slots[i] == Some(key) {
                    assert(slots[a] == slots[i]);
                }
            }
        }
        if expected.contains(key) {
            if slot == Some(key) {
                assert(after[i] == Some(key));
            } else {
                assert(holds(slots, key));
                let a = choose|a: int| 0 <= a < slots.len() && #[trigger] slots[a] == Some(key);
                assert(a != i);
                assert(after[a] == Some(key));
            }
        }
    }
    assert(keys_of(after) =~= expected);
}

/// A key that a slot holds is in the set, and a key in the set sits in a slot.
pub proof fn lemma_holds_at(slots: Seq<Option<u64>>, i: int, key: u64)
    requires
        0 <= i < slots.len(),
        slots[i] == Some(key),
    ensures
        holds(slots, key),
        keys_of(slots).contains(key),
{
}

/// The bucket after `bucket`, around the end of the table.
pub open spec fn successor(bucket: int, capacity: int) -> int {
    if bucket + 1 >= capacity {
        0
    } else {
        bucket + 1
    }
}

/// The bucket before `bucket`, around the start of the table.
pub open spec fn predecessor(bucket: int, capacity: int) -> int {
    if bucket <= 0 {
        capacity - 1
    } else {
        bucket - 1
    }
}

/// The bucket after `bucket`, around the end of the table.
pub fn next_bucket(bucket: usize, capacity: usize) -> (next: usize)
    requires
        bucket < capacity,
    ensures
        next == successor(bucket as int, capacity as int),
        next < capacity,
{
    if bucket + 1 >= capacity {
        0
    } else {
        bucket + 1
    }
}

/// Whether a slot holds exactly this key.
pub(crate) fn slot_is(slot: &Option<u64>, key: u64) -> (same: bool)
    ensures
        same == (*slot == Some(key)),
{
    match slot {
        Some(found) => *found == key,
        None => false,
    }
}

/// A table of `capacity` empty slots.
pub(crate) fn empty_slots(capacity: usize) -> (slots: Vec<Option<u64>>)
    ensures
        slots@ == Seq::new(capacity as nat, |i: int| None::<u64>),
        occupied(slots@) == 0,
        distinct(slots@),
        keys_of(slots@) == Set::<u64>::empty(),
{
    let mut slots: Vec<Option<u64>> = Vec::new();
    let mut filled: usize = 0;
    while filled < capacity
        invariant
            filled <= capacity,
            slots@ == Seq::new(filled as nat, |i: int| None::<u64>),
        decreases capacity - filled,
    {
        slots.push(None);
        filled += 1;
        assert(slots@ =~= Seq::new(filled as nat, |i: int| None::<u64>));
    }
    proof {
        lemma_occupied_bound(slots@);
        lemma_none_occupied(slots@);
        assert(keys_of(slots@) =~= Set::<u64>::empty());
    }
    slots
}

/// A table of empty slots has no occupied slot.
pub proof fn lemma_none_occupied(slots: Seq<Option<u64>>)
    requires
        forall|i: int| 0 <= i < slots.len() ==> (#[trigger] slots[i]) is None,
    ensures
        occupied(slots) == 0,
    decreases slots.len(),
{
    if slots.len() > 0 {
        let front = slots.drop_last();
        assert forall|i: int| 0 <= i < front.len() implies (#[trigger] front[i]) is None by {
            assert(front[i] == slots[i]);
        }
        lemma_none_occupied(front);
        assert(slots.last() == slots[slots.len() - 1]);
    }
}

} // verus!
