//! The presence bit-mask, backed by `bitvec::vec::BitVec`.
//!
//! A mask holds one bit per entity slot.  Verified code never looks inside
//! the underlying `BitVec`; the mask's contents are named by the spec
//! function [`mask_bits`], and each method is a trusted wrapper that states
//! how the `bitvec` call it makes relates the contents before and after.

use vstd::prelude::*;

verus! {

/// A growable bit vector, one bit per entity slot.
#[verifier::external_body]
pub struct Mask {
    bits: bitvec::vec::BitVec,
}

/// The sequence of bits a mask holds, lowest slot first.
pub uninterp spec fn mask_bits(m: Mask) -> Seq<bool>;

impl Mask {
    /// Relies on `BitVec::repeat`: a fresh vector of `len` copies of one bit.
    #[verifier::external_body]
    pub fn zeros(len: usize) -> (r: Mask)
        ensures
            mask_bits(r).len() == len,
            forall|i: int| 0 <= i < len ==> !mask_bits(r)[i],
    {
        Mask { bits: bitvec::vec::BitVec::repeat(false, len) }
    }

    /// Relies on `BitSlice::len` (through `BitVec`'s deref): the number of
    /// live bits.
    #[verifier::external_body]
    pub fn len(&self) -> (r: usize)
        ensures
            r == mask_bits(*self).len(),
    {
        self.bits.len()
    }

    /// Relies on `BitSlice::set`: writes one bit in place; panics when the
    /// index is out of bounds, so that case is excluded here.
    #[verifier::external_body]
    pub fn set(&mut self, index: usize, value: bool)
        requires
            index < mask_bits(*old(self)).len(),
        ensures
            mask_bits(*final(self)) == mask_bits(*old(self)).update(index as int, value),
    {
        self.bits.set(index, value);
    }

    /// Relies on `BitSlice`'s `Index<usize>` impl: reads one bit; panics when
    /// the index is out of bounds, so that case is excluded here.
    #[verifier::external_body]
    pub fn get(&self, index: usize) -> (r: bool)
        requires
            index < mask_bits(*self).len(),
        ensures
            r == mask_bits(*self)[index as int],
    {
        self.bits[index]
    }

    /// Relies on `BitVec::resize`: keeps the prefix, fills new bits with
    /// `value`.
    #[verifier::external_body]
    pub fn resize(&mut self, new_len: usize, value: bool)
        ensures
            mask_bits(*final(self)).len() == new_len,
            forall|i: int|
                0 <= i < new_len ==> mask_bits(*final(self))[i] == (if i < mask_bits(
                    *old(self),
                ).len() {
                    mask_bits(*old(self))[i]
                } else {
                    value
                }),
    {
        self.bits.resize(new_len, value);
    }

    /// Relies on `BitVec`'s `Clone` impl: the copy holds the same bits.
    #[verifier::external_body]
    pub fn duplicate(&self) -> (r: Mask)
        ensures
            mask_bits(r) == mask_bits(*self),
    {
        Mask { bits: self.bits.clone() }
    }

    /// Relies on `BitVec`'s `BitAndAssign<&BitVec>` impl: intersects in
    /// place.  The left side keeps its length; a shorter right side counts
    /// as zero-extended, which clears the excess bits of the left side.
    #[verifier::external_body]
    pub fn intersect(&mut self, other: &Mask)
        ensures
            mask_bits(*final(self)).len() == mask_bits(*old(self)).len(),
            forall|i: int|
                0 <= i < mask_bits(*old(self)).len() ==> mask_bits(*final(self))[i] == (mask_bits(
                    *old(self),
                )[i] && i < mask_bits(*other).len() && mask_bits(*other)[i]),
    {
        self.bits &= &other.bits;
    }

    /// Relies on `BitVec::clear`: empties the vector.
    #[verifier::external_body]
    pub fn clear(&mut self)
        ensures
            mask_bits(*final(self)).len() == 0,
    {
        self.bits.clear();
    }

    /// Relies on `BitSlice::first_one` after a `RangeFrom` index: the
    /// offset, counted from `start`, of the first set bit at or after
    /// `start`.  The range index panics when `start` exceeds the length, so
    /// that case is excluded here.
    #[verifier::external_body]
    pub fn first_one_from(&self, start: usize) -> (r: Option<usize>)
        requires
            start <= mask_bits(*self).len(),
        ensures
            match r {
                Some(k) => start + k < mask_bits(*self).len() && mask_bits(*self)[start + k]
                    && forall|j: int| start <= j < start + k ==> !mask_bits(*self)[j],
                None => forall|j: int|
                    start <= j < mask_bits(*self).len() ==> !mask_bits(*self)[j],
            },
    {
        self.bits[start..].first_one()
    }
}

} // verus!
