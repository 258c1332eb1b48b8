//! A bit-packed sidecar that keeps a few bits per bucket: an occupied flag and
//! a small payload, which is either the top bits of a key's hash or a clamped
//! probe-sequence length.

use crate::bits::{
    all_set, bit_contents, get_bit, load_field, max_bits, msb_value, none_set, set_bit,
    store_field, zeroed, Bits,
};
use vstd::arithmetic::power2::{lemma2_to64, lemma_pow2_pos, lemma_pow2_unfold, pow2};
use vstd::prelude::*;

verus! {

/// The widest metadata cell, in bits.
pub const MAX_META_BITS: usize = 8;

/// What an engine records about the key it puts into a bucket.
#[derive(Clone, Copy, Debug, PartialEq, Eq, Structural)]
pub enum Metadata {
    /// The full hash of the key; its top bits are kept.
    Hash(u64),
    /// The probe-sequence length of the key in its bucket, at least 1.
    Psl(usize),
}

/// What the metadata knows about the probe-sequence length of a bucket's key.
#[derive(Clone, Copy, Debug, PartialEq, Eq, Structural)]
pub enum PslHint {
    /// The length is exactly this.
    Exact(usize),
    /// The length is this or more.
    AtLeast(usize),
}

/// Per-bucket metadata of a fixed width of 0 to 8 bits.
///
/// Its view is one cell per bucket: the occupied flag and the payload. With a
/// width of 0 every cell reads `(false, 0)`; with a width of 1 every payload is 0.
pub struct MetaMap {
    bits: usize,
    buckets: usize,
    bitvec: Bits,
}

/// The number of payload values a cell of the given width can hold; also the
/// probe-sequence length from which the payload saturates.
pub open spec fn payload_cap(bits: nat) -> nat {
    if bits >= 2 {
        pow2((bits - 1) as nat)
    } else {
        1
    }
}

/// The top `bits - 1` bits of a hash.
pub open spec fn fingerprint(hash: u64, bits: nat) -> nat {
    if 2 <= bits <= 65 {
        hash as nat / pow2((65 - bits) as nat)
    } else {
        0
    }
}

/// The payload that stands for a probe-sequence length: the length clamped to
/// the payload cap, less one.
pub open spec fn psl_code(psl: nat, bits: nat) -> nat {
    if psl < payload_cap(bits) {
        (psl - 1) as nat
    } else {
        (payload_cap(bits) - 1) as nat
    }
}

/// The payload a cell of the given width keeps for a piece of metadata.
pub open spec fn encode(metadata: Metadata, bits: nat) -> nat {
    match metadata {
        Metadata::Hash(hash) => fingerprint(hash, bits),
        Metadata::Psl(psl) => psl_code(psl as nat, bits),
    }
}

/// The cell of an empty bucket.
pub open spec fn empty_cell() -> (bool, nat) {
    (false, 0nat)
}

/// The cell of a full bucket that carries `metadata`.
pub open spec fn full_cell(metadata: Metadata, bits: nat) -> (bool, nat) {
    if bits == 0 {
        empty_cell()
    } else {
        (true, encode(metadata, bits))
    }
}

/// The cell of a deleted bucket: flag clear and payload all ones. A one-bit
/// cell cannot tell it from a full bucket, a zero-bit cell says nothing.
pub open spec fn tombstone_cell(bits: nat) -> (bool, nat) {
    if bits == 0 {
        empty_cell()
    } else if bits == 1 {
        (true, 0nat)
    } else {
        (false, (payload_cap(bits) - 1) as nat)
    }
}

/// The cell that the bits of bucket `bucket` spell.
pub closed spec fn cell_of(contents: Seq<bool>, bits: int, bucket: int) -> (bool, nat) {
    if bits == 0 {
        empty_cell()
    } else {
        (
            contents[bucket * bits],
            msb_value(contents.subrange(bucket * bits + 1, bucket * bits + bits)),
        )
    }
}

proof fn lemma_msb_value_bound(run: Seq<bool>)
    ensures
        msb_value(run) < pow2(run.len()),
    decreases run.len(),
{
    if run.len() == 0 {
        lemma2_to64();
    } else {
        lemma_msb_value_bound(run.drop_last());
        lemma_pow2_unfold(run.len());
    }
}

proof fn lemma_msb_value_zero(run: Seq<bool>)
    ensures
        msb_value(run) == 0 <==> (forall|i: int| 0 <= i < run.len() ==> !run[i]),
    decreases run.len(),
{
    if run.len() > 0 {
        let front = run.drop_last();
        lemma_msb_value_zero(front);
        if msb_value(run) == 0 {
            assert forall|i: int| 0 <= i < run.len() implies !run[i] by {
                if i < run.len() - 1 {
                    assert(front[i] == run[i]);
                }
            }
        }
        if forall|i: int| 0 <= i < run.len() ==> !run[i] {
            assert forall|i: int| 0 <= i < front.len() implies !front[i] by {
                assert(front[i] == run[i]);
            }
        }
    }
}

proof fn lemma_msb_value_ones(run: Seq<bool>)
    ensures
        msb_value(run) == pow2(run.len()) - 1 <==> (forall|i: int| 0 <= i < run.len() ==> run[i]),
    decreases run.len(),
{
    if run.len() == 0 {
        lemma2_to64();
    } else {
        let front = run.drop_last();
        lemma_msb_value_ones(front);
        lemma_msb_value_bound(front);
        lemma_pow2_unfold(run.len());
        if msb_value(run) == pow2(run.len()) - 1 {
            assert forall|i: int| 0 <= i < run.len() implies run[i] by {
                if i < run.len() - 1 {
                    assert(front[i] == run[i]);
                }
            }
        }
        if forall|i: int| 0 <= i < run.len() ==> run[i] {
            assert forall|i: int| 0 <= i < front.len() implies front[i] by {
                assert(front[i] == run[i]);
            }
        }
    }
}

/// The bits of two different buckets do not overlap.
proof fn lemma_cells_apart(bits: int, a: int, b: int)
    requires
        bits >= 1,
        a != b,
    ensures
        a * bits + bits <= b * bits || b * bits + bits <= a * bits,
{
    if a < b {
        assert(a * bits + bits <= b * bits) by (nonlinear_arith)
            requires
                a + 1 <= b,
                bits >= 1,
        ;
    } else {
        assert(b * bits + bits <= a * bits) by (nonlinear_arith)
            requires
                b + 1 <= a,
                bits >= 1,
        ;
    }
}

/// The bits of a bucket lie inside the bit vector.
proof fn lemma_cell_inside(bits: int, buckets: int, b: int)
    requires
        bits >= 0,
        0 <= b < buckets,
    ensures
        0 <= b * bits,
        b * bits + bits <= buckets * bits,
{
    assert(0 <= b * bits && b * bits + bits <= buckets * bits) by (nonlinear_arith)
        requires
            0 <= b,
            b + 1 <= buckets,
            bits >= 0,
    ;
}

/// A write inside one bucket's bits leaves every other bucket's cell as it was.
proof fn lemma_cell_frame(before: Seq<bool>, after: Seq<bool>, bits: int, b: int, c: int)
    requires
        bits >= 1,
        0 <= b,
        0 <= c,
        c != b,
        before.len() == after.len(),
        c * bits + bits <= before.len(),
        forall|i: int|
            0 <= i < before.len() && !(b * bits <= i < b * bits + bits) ==> after[i] == before[i],
    ensures
        cell_of(after, bits, c) == cell_of(before, bits, c),
{
    lemma_cells_apart(bits, b, c);
    assert(0 <= c * bits) by (nonlinear_arith)
        requires
            0 <= c,
            bits >= 1,
    ;
    assert(after.subrange(c * bits + 1, c * bits + bits) =~= before.subrange(
        c * bits + 1,
        c * bits + bits,
    ));
}

/// The cap on payloads of a cell of 2 to 8 bits, as a number.
pub proof fn lemma_payload_cap(bits: nat)
    requires
        2 <= bits <= 8,
    ensures
        payload_cap(bits) == pow2((bits - 1) as nat),
        2 <= payload_cap(bits) <= 128,
        bits == 2 ==> payload_cap(bits) == 2,
        bits == 3 ==> payload_cap(bits) == 4,
        bits == 4 ==> payload_cap(bits) == 8,
        bits == 5 ==> payload_cap(bits) == 16,
        bits == 6 ==> payload_cap(bits) == 32,
        bits == 7 ==> payload_cap(bits) == 64,
        bits == 8 ==> payload_cap(bits) == 128,
{
    lemma2_to64();
}

impl View for MetaMap {
    type V = Seq<(bool, nat)>;

    closed spec fn view(&self) -> Seq<(bool, nat)> {
        Seq::new(
            self.buckets as nat,
            |b: int| cell_of(bit_contents(self.bitvec), self.bits as int, b),
        )
    }
}

impl MetaMap {
    /// The width of a cell in bits.
    pub closed spec fn spec_bits(&self) -> nat {
        self.bits as nat
    }

    /// The bit vector holds exactly one cell of the chosen width per bucket.
    pub closed spec fn wf(&self) -> bool {
        &&& self.bits <= MAX_META_BITS
        &&& bit_contents(self.bitvec).len() == self.buckets * self.bits
        &&& self.buckets * self.bits <= max_bits()
    }

    /// Whether the metadata alone shows the bucket to be empty.
    pub open spec fn shows_empty(&self, bucket: int) -> bool {
        self.spec_bits() >= 1 && self@[bucket] == empty_cell()
    }

    /// Whether the metadata alone shows the bucket to be a tombstone.
    pub open spec fn shows_tombstone(&self, bucket: int) -> bool {
        self.spec_bits() >= 2 && self@[bucket] == tombstone_cell(self.spec_bits())
    }

    /// What the metadata says of the probe-sequence length of the bucket's key.
    /// `None` means the bucket is empty. A cell without payload bits can only
    /// say "1 or more", and a zero-bit cell says so of every bucket.
    pub open spec fn psl_hint(&self, bucket: int) -> Option<PslHint> {
        let bits = self.spec_bits();
        let (occupied, payload) = self@[bucket];
        if bits == 0 {
            Some(PslHint::AtLeast(1))
        } else if !occupied {
            None
        } else if bits == 1 {
            Some(PslHint::AtLeast(1))
        } else if payload == payload_cap(bits) - 1 {
            Some(PslHint::AtLeast(payload_cap(bits) as usize))
        } else {
            Some(PslHint::Exact((payload + 1) as usize))
        }
    }

    /// Whether the metadata alone rules out that the bucket holds a key with
    /// the given hash: the bucket is not marked full, or its payload differs
    /// from the top bits of the hash.
    pub open spec fn rules_out(&self, bucket: int, hash: u64) -> bool {
        let bits = self.spec_bits();
        let (occupied, payload) = self@[bucket];
        bits >= 1 && (!occupied || (bits >= 2 && payload != fingerprint(hash, bits)))
    }

    /// A map of `buckets` empty cells of `bits_per_bucket` bits each.
    pub fn new(buckets: usize, bits_per_bucket: usize) -> (map: MetaMap)
        requires
            bits_per_bucket <= MAX_META_BITS,
            buckets * bits_per_bucket <= max_bits(),
        ensures
            map.wf(),
            map.spec_bits() == bits_per_bucket,
            map@ == Seq::new(buckets as nat, |b: int| empty_cell()),
    {
        let map = MetaMap {
            bits: bits_per_bucket,
            buckets,
            bitvec: zeroed(buckets * bits_per_bucket),
        };
        proof {
            let contents = bit_contents(map.bitvec);
            assert forall|b: int| 0 <= b < buckets implies cell_of(
                contents,
                bits_per_bucket as int,
                b,
            ) == empty_cell() by {
                if bits_per_bucket > 0 {
                    let bits = bits_per_bucket as int;
                    lemma_cell_inside(bits, buckets as int, b);
                    let run = contents.subrange(b * bits + 1, b * bits + bits);
                    lemma_msb_value_zero(run);
                }
            }
            assert(map@ =~= Seq::new(buckets as nat, |b: int| empty_cell()));
        }
        map
    }

    /// Writes the cell of a bucket: its flag, and its payload where the cell
    /// has payload bits.
    fn write_cell(&mut self, bucket: usize, occupied: bool, payload: u64)
        requires
            old(self).wf(),
            old(self).spec_bits() >= 1,
            bucket < old(self)@.len(),
            payload < payload_cap(old(self).spec_bits()),
        ensures
            final(self).wf(),
            final(self).spec_bits() == old(self).spec_bits(),
            final(self)@ == old(self)@.update(bucket as int, (occupied, payload as nat)),
    {
        let ghost bits = self.bits as int;
        let ghost b = bucket as int;
        let ghost before = bit_contents(self.bitvec);
        proof {
            lemma_cell_inside(bits, self.buckets as int, b);
        }
        let start = bucket * self.bits;
        set_bit(&mut self.bitvec, start, occupied);
        if self.bits >= 2 {
            let end = start + self.bits;
            store_field(&mut self.bitvec, start + 1, end, payload);
        }
        proof {
            let after = bit_contents(self.bitvec);
            assert(after[b * bits] == occupied);
            if bits >= 2 {
                lemma_payload_cap(bits as nat);
                vstd::arithmetic::div_mod::lemma_small_mod(
                    payload as nat,
                    pow2((bits - 1) as nat),
                );
            }
            assert(cell_of(after, bits, b) == (occupied, payload as nat));
            assert forall|c: int| 0 <= c < self.buckets && c != b implies cell_of(after, bits, c)
                == cell_of(before, bits, c) by {
                lemma_cell_inside(bits, self.buckets as int, c);
                lemma_cell_frame(before, after, bits, b, c);
            }
            assert(self@ =~= old(self)@.update(b, (occupied, payload as nat)));
        }
    }

    /// Marks a bucket full and records its metadata: the top bits of a hash,
    /// or a probe-sequence length clamped to the payload cap.
    pub fn set_full(&mut self, bucket: usize, metadata: Metadata)
        requires
            old(self).wf(),
            bucket < old(self)@.len(),
            metadata matches Metadata::Psl(psl) ==> psl >= 1,
        ensures
            final(self).wf(),
            final(self).spec_bits() == old(self).spec_bits(),
            final(self)@ == old(self)@.update(
                bucket as int,
                full_cell(metadata, old(self).spec_bits()),
            ),
    {
        if self.bits == 0 {
            proof {
                assert(self@ =~= old(self)@.update(bucket as int, empty_cell()));
            }
            return ;
        }
        if self.bits == 1 {
            self.write_cell(bucket, true, 0);
            return ;
        }
        proof {
            lemma_payload_cap(self.bits as nat);
        }
        let payload = match metadata {
            Metadata::Hash(raw_hash) => top_bits(raw_hash, self.bits),
            Metadata::Psl(psl) => {
                let cap = cap_of(self.bits);
                if psl < cap {
                    (psl - 1) as u64
                } else {
                    (cap - 1) as u64
                }
            },
        };
        self.write_cell(bucket, true, payload);
    }

    /// Marks a bucket empty: every bit of its cell is cleared.
    pub fn set_empty(&mut self, bucket: usize)
        requires
            old(self).wf(),
            bucket < old(self)@.len(),
        ensures
            final(self).wf(),
            final(self).spec_bits() == old(self).spec_bits(),
            final(self)@ == old(self)@.update(bucket as int, empty_cell()),
    {
        if self.bits == 0 {
            proof {
                assert(self@ =~= old(self)@.update(bucket as int, empty_cell()));
            }
            return ;
        }
        proof {
            lemma_pow2_pos((self.bits - 1) as nat);
        }
        self.write_cell(bucket, false, 0);
    }

    /// Marks a bucket deleted: flag clear, payload all ones. A one-bit cell is
    /// set, so that a search does not stop at the bucket.
    pub fn set_tombstone(&mut self, bucket: usize)
        requires
            old(self).wf(),
            bucket < old(self)@.len(),
        ensures
            final(self).wf(),
            final(self).spec_bits() == old(self).spec_bits(),
            final(self)@ == old(self)@.update(bucket as int, tombstone_cell(old(self).spec_bits())),
    {
        if self.bits == 0 {
            proof {
                assert(self@ =~= old(self)@.update(bucket as int, empty_cell()));
            }
            return ;
        }
        if self.bits == 1 {
            self.write_cell(bucket, true, 0);
            return ;
        }
        proof {
            lemma_payload_cap(self.bits as nat);
        }
        let cap = cap_of(self.bits);
        self.write_cell(bucket, false, (cap - 1) as u64);
    }

    /// The width of a cell in bits.
    pub fn bits(&self) -> (bits: usize)
        ensures
            bits == self.spec_bits(),
    {
        self.bits
    }

    /// `true` means the bucket is certainly empty; `false` says nothing.
    pub fn hint_empty(&self, bucket: usize) -> (empty: bool)
        requires
            self.wf(),
            bucket < self@.len(),
        ensures
            empty == self.shows_empty(bucket as int),
    {
        if self.bits == 0 {
            return false;
        }
        let ghost bits = self.bits as int;
        let ghost b = bucket as int;
        let ghost contents = bit_contents(self.bitvec);
        proof {
            lemma_cell_inside(bits, self.buckets as int, b);
        }
        let start = bucket * self.bits;
        let end = start + self.bits;
        let empty = none_set(&self.bitvec, start, end);
        proof {
            let run = contents.subrange(start + 1, end as int);
            lemma_msb_value_zero(run);
            if empty {
                assert forall|i: int| 0 <= i < run.len() implies !run[i] by {
                    assert(run[i] == contents[start + 1 + i]);
                }
            }
            if self@[b] == empty_cell() {
                assert forall|i: int| start <= i < end implies !contents[i] by {
                    if i > start {
                        assert(run[i - start - 1] == contents[i]);
                    }
                }
            }
        }
        empty
    }

    /// `true` means the bucket is certainly a tombstone; `false` says nothing.
    pub fn hint_tombstone(&self, bucket: usize) -> (tombstone: bool)
        requires
            self.wf(),
            bucket < self@.len(),
        ensures
            tombstone == self.shows_tombstone(bucket as int),
    {
        if self.bits <= 1 {
            return false;
        }
        let ghost bits = self.bits as int;
        let ghost b = bucket as int;
        let ghost contents = bit_contents(self.bitvec);
        proof {
            lemma_cell_inside(bits, self.buckets as int, b);
            lemma_payload_cap(bits as nat);
        }
        let start = bucket * self.bits;
        let end = start + self.bits;
        let flag = get_bit(&self.bitvec, start);
        let ones = all_set(&self.bitvec, start + 1, end);
        proof {
            let run = contents.subrange(start + 1, end as int);
            lemma_msb_value_ones(run);
            if ones {
                assert forall|i: int| 0 <= i < run.len() implies run[i] by {
                    assert(run[i] == contents[start + 1 + i]);
                }
            }
            if msb_value(run) == pow2(run.len()) - 1 {
                assert forall|i: int| start + 1 <= i < end implies contents[i] by {
                    assert(run[i - start - 1] == contents[i]);
                }
            }
        }
        !flag && ones
    }

    /// What the metadata says of the probe-sequence length of the bucket's key.
    pub fn hint_psl(&self, bucket: usize) -> (hint: Option<PslHint>)
        requires
            self.wf(),
            bucket < self@.len(),
        ensures
            hint == self.psl_hint(bucket as int),
    {
        if self.bits == 0 {
            return Some(PslHint::AtLeast(1));
        }
        let ghost bits = self.bits as int;
        let ghost b = bucket as int;
        let ghost contents = bit_contents(self.bitvec);
        proof {
            lemma_cell_inside(bits, self.buckets as int, b);
        }
        let start = bucket * self.bits;
        if !get_bit(&self.bitvec, start) {
            return None;
        }
        if self.bits == 1 {
            return Some(PslHint::AtLeast(1));
        }
        let end = start + self.bits;
        proof {
            lemma_payload_cap(bits as nat);
            let run = contents.subrange(start + 1, end as int);
            lemma_msb_value_ones(run);
            lemma_msb_value_bound(run);
            if forall|i: int| start + 1 <= i < end ==> contents[i] {
                assert forall|i: int| 0 <= i < run.len() implies run[i] by {
                    assert(run[i] == contents[start + 1 + i]);
                }
            }
            if msb_value(run) == pow2(run.len()) - 1 {
                assert forall|i: int| start + 1 <= i < end implies contents[i] by {
                    assert(run[i - start - 1] == contents[i]);
                }
            }
        }
        if all_set(&self.bitvec, start + 1, end) {
            Some(PslHint::AtLeast(cap_of(self.bits)))
        } else {
            let payload = load_field(&self.bitvec, start + 1, end);
            Some(PslHint::Exact(payload as usize + 1))
        }
    }

    /// `true` means the bucket certainly does not hold a key with this hash;
    /// `false` says nothing.
    pub fn hint_not_match(&self, bucket: usize, raw_hash: u64) -> (differs: bool)
        requires
            self.wf(),
            bucket < self@.len(),
        ensures
            differs == self.rules_out(bucket as int, raw_hash),
    {
        if self.bits == 0 {
            return false;
        }
        let ghost bits = self.bits as int;
        let ghost b = bucket as int;
        proof {
            lemma_cell_inside(bits, self.buckets as int, b);
        }
        let start = bucket * self.bits;
        if self.bits == 1 {
            return !get_bit(&self.bitvec, start);
        }
        let end = start + self.bits;
        if !get_bit(&self.bitvec, start) {
            return true;
        }
        let payload = load_field(&self.bitvec, start + 1, end);
        payload != top_bits(raw_hash, self.bits)
    }

    /// What holds of every cell of a well-formed map: there is one cell per
    /// bucket, a payload stays under the cap of the width, and a zero-bit map
    /// reads empty everywhere.
    pub proof fn lemma_cells(&self)
        requires
            self.wf(),
        ensures
            self.spec_bits() <= MAX_META_BITS,
            forall|b: int|
                0 <= b < self@.len() ==> (#[trigger] self@[b]).1 < payload_cap(self.spec_bits()),
            self.spec_bits() == 0 ==> forall|b: int|
                0 <= b < self@.len() ==> #[trigger] self@[b] == empty_cell(),
    {
        let bits = self.bits as int;
        let contents = bit_contents(self.bitvec);
        assert forall|b: int| 0 <= b < self@.len() implies (#[trigger] self@[b]).1 < payload_cap(
            self.spec_bits(),
        ) by {
            if bits >= 1 {
                lemma_cell_inside(bits, self.buckets as int, b);
                let run = contents.subrange(b * bits + 1, b * bits + bits);
                lemma_msb_value_bound(run);
                if bits == 1 {
                    lemma2_to64();
                }
            }
        }
    }
}

/// The payload cap of a cell of 2 to 8 bits.
fn cap_of(bits: usize) -> (cap: usize)
    requires
        2 <= bits <= MAX_META_BITS,
    ensures
        cap == payload_cap(bits as nat),
{
    proof {
        lemma_payload_cap(bits as nat);
        vstd::bits::lemma_usize_shl_is_mul(1usize, (bits - 1) as usize);
    }
    1usize << (bits - 1)
}

/// The top `bits - 1` bits of a hash, for a cell of 2 to 8 bits.
fn top_bits(raw_hash: u64, bits: usize) -> (top: u64)
    requires
        2 <= bits <= MAX_META_BITS,
    ensures
        top == fingerprint(raw_hash, bits as nat),
        top < payload_cap(bits as nat),
{
    let shift: u64 = 65 - bits as u64;
    proof {
        vstd::bits::lemma_u64_shr_is_div(raw_hash, shift);
        lemma_payload_cap(bits as nat);
        lemma2_to64();
        vstd::arithmetic::power2::lemma2_to64_rest();
        vstd::arithmetic::power2::lemma_pow2_adds((65 - bits) as nat, (bits - 1) as nat);
        lemma_pow2_pos((65 - bits) as nat);
        let low = pow2((65 - bits) as nat) as int;
        let high = pow2((bits - 1) as nat) as int;
        assert(raw_hash as int / low < high) by (nonlinear_arith)
            requires
                0 <= raw_hash as int,
                (raw_hash as int) < low * high,
                low > 0,
        ;
    }
    raw_hash >> shift
}

impl MetaMap {
    /// After a bucket was marked full with a hash, the metadata does not rule
    /// that hash out for the bucket, and does not show the bucket empty where
    /// it has bits to show anything.
    pub proof fn law_full_matches_its_hash(
        before: MetaMap,
        after: MetaMap,
        bucket: int,
        hash: u64,
    )
        requires
            before.wf(),
            after.wf(),
            0 <= bucket < before@.len(),
            after.spec_bits() == before.spec_bits(),
            after@ == before@.update(bucket, full_cell(Metadata::Hash(hash), before.spec_bits())),
        ensures
            !after.rules_out(bucket, hash),
            !after.shows_empty(bucket),
            !after.shows_tombstone(bucket),
    {
    }

    /// After a bucket was marked full with a probe-sequence length, the hint
    /// gives that length exactly where it is under the payload cap, and the cap
    /// as a lower bound from there on. A cell without payload bits says "1 or
    /// more".
    pub proof fn law_full_hints_its_length(
        before: MetaMap,
        after: MetaMap,
        bucket: int,
        psl: usize,
    )
        requires
            before.wf(),
            after.wf(),
            0 <= bucket < before@.len(),
            psl >= 1,
            after.spec_bits() == before.spec_bits(),
            after@ == before@.update(bucket, full_cell(Metadata::Psl(psl), before.spec_bits())),
        ensures
            after.psl_hint(bucket) == if after.spec_bits() <= 1 {
                Some(PslHint::AtLeast(1))
            } else if psl < payload_cap(after.spec_bits()) {
                Some(PslHint::Exact(psl))
            } else {
                Some(PslHint::AtLeast(payload_cap(after.spec_bits()) as usize))
            },
    {
        after.lemma_cells();
        if after.spec_bits() >= 2 {
            lemma_payload_cap(after.spec_bits());
        }
    }

    /// After a bucket was marked empty, a map with at least one bit shows it
    /// empty and gives no length for it.
    pub proof fn law_emptied_shows_empty(before: MetaMap, after: MetaMap, bucket: int)
        requires
            before.wf(),
            after.wf(),
            0 <= bucket < before@.len(),
            before.spec_bits() >= 1,
            after.spec_bits() == before.spec_bits(),
            after@ == before@.update(bucket, empty_cell()),
        ensures
            after.shows_empty(bucket),
            !after.shows_tombstone(bucket),
            after.psl_hint(bucket) is None,
            forall|hash: u64| after.rules_out(bucket, hash),
    {
        after.lemma_cells();
        if after.spec_bits() >= 2 {
            lemma_payload_cap(after.spec_bits());
        }
    }

    /// After a bucket was marked deleted, a map with at least two bits shows a
    /// tombstone there and does not show the bucket empty.
    pub proof fn law_tombstone_shows(before: MetaMap, after: MetaMap, bucket: int)
        requires
            before.wf(),
            after.wf(),
            0 <= bucket < before@.len(),
            before.spec_bits() >= 2,
            after.spec_bits() == before.spec_bits(),
            after@ == before@.update(bucket, tombstone_cell(before.spec_bits())),
        ensures
            after.shows_tombstone(bucket),
            !after.shows_empty(bucket),
    {
        after.lemma_cells();
        lemma_payload_cap(after.spec_bits());
    }

    /// A write to one bucket changes no hint of another.
    pub proof fn law_other_buckets_keep_their_hints(
        before: MetaMap,
        after: MetaMap,
        bucket: int,
        cell: (bool, nat),
        other: int,
        hash: u64,
    )
        requires
            before.wf(),
            after.wf(),
            0 <= bucket < before@.len(),
            0 <= other < before@.len(),
            other != bucket,
            after.spec_bits() == before.spec_bits(),
            after@ == before@.update(bucket, cell),
        ensures
            after.shows_empty(other) == before.shows_empty(other),
            after.shows_tombstone(other) == before.shows_tombstone(other),
            after.psl_hint(other) == before.psl_hint(other),
            after.rules_out(other, hash) == before.rules_out(other, hash),
    {
    }

    /// A map without bits shows nothing: no bucket empty, none a tombstone,
    /// no hash ruled out, and "1 or more" for every length.
    pub proof fn law_zero_bits_is_cautious(map: MetaMap, bucket: int, hash: u64)
        requires
            map.wf(),
            map.spec_bits() == 0,
        ensures
            !map.shows_empty(bucket),
            !map.shows_tombstone(bucket),
            !map.rules_out(bucket, hash),
            map.psl_hint(bucket) == Some(PslHint::AtLeast(1)),
    {
    }
}

} // verus!
