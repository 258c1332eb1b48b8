//! The bit vector that backs the metadata map, seen as a sequence of booleans.

use bitvec::field::BitField;
use bitvec::order::Msb0;
use bitvec::vec::BitVec;
use vstd::prelude::*;

verus! {

/// A `BitVec` over `u64` words, first bit of each word most significant.
#[verifier::external_body]
pub struct Bits {
    inner: BitVec<u64, Msb0>,
}

/// The bits a bit vector holds, in index order.
pub uninterp spec fn bit_contents(bits: Bits) -> Seq<bool>;

/// The largest number of bits a bit vector can hold.
pub open spec fn max_bits() -> int {
    usize::MAX as int / 8
}

/// The largest number of bits a bit vector can hold.
pub fn bits_limit() -> (limit: usize)
    ensures
        limit == max_bits(),
{
    usize::MAX / 8
}

/// The number that a run of bits spells when its first bit is the most
/// significant one.
pub open spec fn msb_value(run: Seq<bool>) -> nat
    decreases run.len(),
{
    if run.len() == 0 {
        0
    } else {
        2 * msb_value(run.drop_last()) + if run.last() { 1nat } else { 0nat }
    }
}

/// `BitVec::repeat(false, len)`: `len` cleared bits. The length must be one a
/// bit vector can encode.
#[verifier::external_body]
pub(crate) fn zeroed(len: usize) -> (bits: Bits)
    requires
        len <= max_bits(),
    ensures
        bit_contents(bits) == Seq::new(len as nat, |i: int| false),
{
    Bits { inner: BitVec::repeat(false, len) }
}

/// `BitSlice::set`: writes one bit and leaves the others alone.
#[verifier::external_body]
pub(crate) fn set_bit(bits: &mut Bits, index: usize, value: bool)
    requires
        index < bit_contents(*old(bits)).len(),
    ensures
        bit_contents(*final(bits)) == bit_contents(*old(bits)).update(index as int, value),
{
    bits.inner.set(index, value);
}

/// Indexing a bit slice by position: reads one bit.
#[verifier::external_body]
pub(crate) fn get_bit(bits: &Bits, index: usize) -> (value: bool)
    requires
        index < bit_contents(*bits).len(),
    ensures
        value == bit_contents(*bits)[index as int],
{
    bits.inner[index]
}

/// `BitSlice::not_any` on the bits `start..end`: whether every one is cleared.
#[verifier::external_body]
pub(crate) fn none_set(bits: &Bits, start: usize, end: usize) -> (none: bool)
    requires
        start <= end <= bit_contents(*bits).len(),
    ensures
        none == (forall|i: int| start <= i < end ==> !bit_contents(*bits)[i]),
{
    bits.inner[start..end].not_any()
}

/// `BitSlice::all` on the bits `start..end`: whether every one is set.
#[verifier::external_body]
pub(crate) fn all_set(bits: &Bits, start: usize, end: usize) -> (all: bool)
    requires
        start <= end <= bit_contents(*bits).len(),
    ensures
        all == (forall|i: int| start <= i < end ==> bit_contents(*bits)[i]),
{
    bits.inner[start..end].all()
}

/// `BitField::load_be` on the bits `start..end` of a most-significant-first
/// vector: the number those bits spell, first bit most significant.
#[verifier::external_body]
pub(crate) fn load_field(bits: &Bits, start: usize, end: usize) -> (value: u64)
    requires
        start < end <= bit_contents(*bits).len(),
        end - start <= 64,
    ensures
        value == msb_value(bit_contents(*bits).subrange(start as int, end as int)),
{
    bits.inner[start..end].load_be::<u64>()
}

/// `BitField::store_be` on the bits `start..end` of a most-significant-first
/// vector: afterwards those bits spell the low `end - start` bits of `value`,
/// first bit most significant, and no other bit has changed.
#[verifier::external_body]
pub(crate) fn store_field(bits: &mut Bits, start: usize, end: usize, value: u64)
    requires
        start < end <= bit_contents(*old(bits)).len(),
        end - start <= 64,
    ensures
        bit_contents(*final(bits)).len() == bit_contents(*old(bits)).len(),
        forall|i: int|
            0 <= i < start || end <= i < bit_contents(*old(bits)).len() ==> bit_contents(
                *final(bits),
            )[i] == bit_contents(*old(bits))[i],
        msb_value(bit_contents(*final(bits)).subrange(start as int, end as int)) == value as nat
            % vstd::arithmetic::power2::pow2((end - start) as nat),
{
    bits.inner[start..end].store_be::<u64>(value);
}

} // verus!
