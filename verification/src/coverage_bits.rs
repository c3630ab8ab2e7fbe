//! Coverage bitsets held in the bit vectors of the `bitvec` crate.
use vstd::prelude::*;
use bitvec::vec::BitVec;
use crate::energy::count_false;

verus! {

/// A fixed-length set of coverage bits, held in a `bitvec::vec::BitVec`.
#[verifier::external_body]
pub struct CoverBits {
    bits: BitVec,
}

/// The bits held, in index order.
pub uninterp spec fn bits_of(c: CoverBits) -> Seq<bool>;

impl CoverBits {
    /// `BitVec::repeat(false, len)`: `len` cleared bits. `BitVec::with_capacity`, which
    /// it calls, asserts that `len` is at most `BitSlice::MAX_BITS`, `usize::MAX >> 3`.
    #[verifier::external_body]
    pub(crate) fn zeros(len: usize) -> (r: CoverBits)
        requires
            len <= usize::MAX / 8,
        ensures
            bits_of(r) == Seq::new(len as nat, |k: int| false),
    {
        CoverBits { bits: BitVec::repeat(false, len) }
    }

    /// Indexing a `BitVec` (through `BitSlice`'s `Index<usize>`): the bit at `k`.
    #[verifier::external_body]
    pub(crate) fn get(&self, k: usize) -> (r: bool)
        requires
            k < bits_of(*self).len(),
        ensures
            r == bits_of(*self)[k as int],
    {
        self.bits[k]
    }

    /// `BitSlice::fill` on the sub-slice `[a, b)`: every bit in it becomes `value`,
    /// the others are unchanged.
    #[verifier::external_body]
    pub(crate) fn fill_range(&mut self, a: usize, b: usize, value: bool)
        requires
            a <= b <= bits_of(*old(self)).len(),
        ensures
            bits_of(*final(self)) == Seq::new(
                bits_of(*old(self)).len(),
                |x: int| if a <= x < b { value } else { bits_of(*old(self))[x] },
            ),
    {
        self.bits[a..b].fill(value);
    }

    /// `BitSlice::fill` on the whole vector: every bit becomes `value`.
    #[verifier::external_body]
    pub(crate) fn fill(&mut self, value: bool)
        ensures
            bits_of(*final(self)) == Seq::new(bits_of(*old(self)).len(), |x: int| value),
    {
        self.bits.fill(value);
    }

    /// `BitSlice::count_zeros`: the number of cleared bits.
    #[verifier::external_body]
    pub(crate) fn count_zeros(&self) -> (r: usize)
        ensures
            r == count_false(bits_of(*self)),
    {
        self.bits.count_zeros()
    }
}

} // verus!
