//! Bit masks over the states of a node, kept in a `bitvec::vec::BitVec`.

use bitvec::vec::BitVec;
use vstd::prelude::*;

verus! {

/// A mask over the states of a node: bit `i` tells whether state `i` is
/// permitted. The bits live in a `bitvec::vec::BitVec`, which Verus sees only
/// through `mask_bits` and the functions below.
#[verifier::external_body]
pub struct Mask {
    bits: BitVec,
}

/// The bits that a mask holds, in order.
pub uninterp spec fn mask_bits(mask: Mask) -> Seq<bool>;

/// The most bits that a `BitVec` can hold (`BitSlice::MAX_BITS`: `usize::MAX >> 3`).
pub open spec fn mask_capacity() -> int {
    (usize::MAX as int) / 8
}

/// `BitVec::new`: an empty bit vector.
#[verifier::external_body]
pub(crate) fn new_mask() -> (mask: Mask)
    ensures
        mask_bits(mask) == Seq::<bool>::empty(),
{
    Mask { bits: BitVec::new() }
}

/// `BitVec::push`: appends one bit at the end; it panics past
/// `BitSlice::MAX_BITS`, which `requires` rules out.
#[verifier::external_body]
pub(crate) fn push_mask_bit(mask: &mut Mask, bit: bool)
    requires
        mask_bits(*old(mask)).len() + 1 <= mask_capacity(),
    ensures
        mask_bits(*final(mask)) == mask_bits(*old(mask)).push(bit),
{
    mask.bits.push(bit);
}

/// Indexing a `BitVec` (`Index<usize>`): the bit at `index`; it panics out of
/// bounds, which `requires` rules out.
#[verifier::external_body]
pub(crate) fn mask_bit(mask: &Mask, index: usize) -> (bit: bool)
    requires
        index < mask_bits(*mask).len(),
    ensures
        bit == mask_bits(*mask)[index as int],
{
    mask.bits[index]
}

/// `BitVec::len`: how many bits the mask holds.
#[verifier::external_body]
pub(crate) fn mask_len(mask: &Mask) -> (length: usize)
    ensures
        length == mask_bits(*mask).len(),
{
    mask.bits.len()
}

impl Mask {
    /// How many bits the mask holds.
    pub fn len(&self) -> (length: usize)
        ensures
            length == mask_bits(*self).len(),
    {
        mask_len(self)
    }

    /// Bit `index` of the mask, or `None` past its end.
    pub fn get(&self, index: usize) -> (bit: Option<bool>)
        ensures
            match bit {
                Some(b) => index < mask_bits(*self).len() && b == mask_bits(*self)[index as int],
                None => index >= mask_bits(*self).len(),
            },
    {
        if index < mask_len(self) {
            Some(mask_bit(self, index))
        } else {
            None
        }
    }

    /// The mask whose bits are `bits`, in order.
    pub fn from_bits(bits: &Vec<bool>) -> (mask: Mask)
        requires
            bits@.len() <= mask_capacity(),
        ensures
            mask_bits(mask) == bits@,
    {
        let mut mask = new_mask();
        let mut i: usize = 0;
        while i < bits.len()
            invariant
                i <= bits@.len(),
                bits@.len() <= mask_capacity(),
                mask_bits(mask) == bits@.subrange(0, i as int),
            decreases bits@.len() - i,
        {
            push_mask_bit(&mut mask, bits[i]);
            i = i + 1;
            proof {
                assert(mask_bits(mask) =~= bits@.subrange(0, i as int));
            }
        }
        proof {
            assert(bits@.subrange(0, bits@.len() as int) =~= bits@);
        }
        mask
    }

    /// Bit `index` of the mask.
    pub fn bit(&self, index: usize) -> (bit: bool)
        requires
            index < mask_bits(*self).len(),
        ensures
            bit == mask_bits(*self)[index as int],
    {
        mask_bit(self, index)
    }
}

} // verus!
