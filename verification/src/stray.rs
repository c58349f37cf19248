//! The bytes of a character that the end of a chunk has cut off.

use smallvec::SmallVec;
use vstd::prelude::*;

verus! {

/// A handful of bytes, kept in a `SmallVec` so that they need no allocation.
#[verifier::external_body]
pub struct Stray {
    bytes: SmallVec<[u8; 8]>,
}

/// The bytes that a [`Stray`] holds, in order.
pub uninterp spec fn stray_bytes(stray: Stray) -> Seq<u8>;

impl Stray {
    /// `SmallVec::default`: a vector without elements.
    #[verifier::external_body]
    pub(crate) fn new() -> (r: Stray)
        ensures
            stray_bytes(r) == Seq::<u8>::empty(),
    {
        Stray { bytes: SmallVec::default() }
    }

    /// `SmallVec::len`: the number of elements.
    #[verifier::external_body]
    pub(crate) fn len(&self) -> (r: usize)
        ensures
            r == stray_bytes(*self).len(),
    {
        self.bytes.len()
    }

    /// `SmallVec::as_slice`: all elements, in order.
    #[verifier::external_body]
    pub(crate) fn as_slice(&self) -> (r: &[u8])
        ensures
            r@ == stray_bytes(*self),
    {
        self.bytes.as_slice()
    }

    /// `SmallVec::clear`: takes all elements out.
    #[verifier::external_body]
    pub(crate) fn clear(&mut self)
        ensures
            stray_bytes(*final(self)) == Seq::<u8>::empty(),
    {
        self.bytes.clear()
    }

    /// `SmallVec::extend_from_slice`: appends the elements of `slice`, in order. It is
    /// called only where all of them fit into the eight that need no allocation.
    #[verifier::external_body]
    pub(crate) fn extend_from_slice(&mut self, slice: &[u8])
        requires
            stray_bytes(*old(self)).len() + slice@.len() <= 8,
        ensures
            stray_bytes(*final(self)) == stray_bytes(*old(self)) + slice@,
    {
        self.bytes.extend_from_slice(slice)
    }
}

} // verus!
