//! Text: the strings that lines and fields are made of, and the buffers that
//! they are cut from.

use vstd::prelude::*;

verus! {

/// A string, held as its bytes.
#[derive(Debug)]
pub struct Str {
    bytes: Vec<u8>,
}

impl View for Str {
    type V = Seq<u8>;

    closed spec fn view(&self) -> Seq<u8> {
        self.bytes@
    }
}

impl Default for Str {
    /// The empty string.
    fn default() -> (r: Str)
        ensures
            r@ == Seq::<u8>::empty(),
    {
        Str { bytes: Vec::new() }
    }
}

impl Clone for Str {
    fn clone(&self) -> (r: Str)
        ensures
            r@ == self@,
    {
        Str { bytes: vstd::slice::slice_to_vec(self.bytes.as_slice()) }
    }
}

impl Str {
    /// The string with the given bytes.
    pub fn new(bytes: &[u8]) -> (r: Str)
        ensures
            r@ == bytes@,
    {
        Str { bytes: vstd::slice::slice_to_vec(bytes) }
    }

    /// The bytes of the string.
    pub fn as_bytes(&self) -> (r: &[u8])
        ensures
            r@ == self@,
    {
        self.bytes.as_slice()
    }

    /// `left` followed by `right`.
    pub fn concat(left: Str, right: Str) -> (r: Str)
        ensures
            r@ == left@ + right@,
    {
        let mut bytes = left.bytes;
        let mut tail = right.bytes;
        bytes.append(&mut tail);
        Str { bytes }
    }
}

/// A buffer that is being filled, before it is shared as a [`Buf`].
pub struct UniqueBuf {
    bytes: Vec<u8>,
}

impl View for UniqueBuf {
    type V = Seq<u8>;

    closed spec fn view(&self) -> Seq<u8> {
        self.bytes@
    }
}

impl UniqueBuf {
    /// A buffer of `size` zeros.
    pub fn new(size: usize) -> (r: UniqueBuf)
        ensures
            r@ == Seq::new(size as nat, |i: int| 0u8),
    {
        let bytes: Vec<u8> = vec![0u8; size];
        assert(bytes@ =~= Seq::new(size as nat, |i: int| 0u8));
        UniqueBuf { bytes }
    }

    /// The bytes, for writing.
    pub fn as_mut_bytes(&mut self) -> (r: &mut [u8])
        ensures
            r@ == old(self)@,
            final(self)@ == final(r)@,
    {
        self.bytes.as_mut_slice()
    }

    /// Ends the filling.
    pub fn into_buf(self) -> (r: Buf)
        ensures
            r@ == self@,
    {
        Buf { bytes: self.bytes }
    }
}

/// A filled buffer.
pub struct Buf {
    bytes: Vec<u8>,
}

impl View for Buf {
    type V = Seq<u8>;

    closed spec fn view(&self) -> Seq<u8> {
        self.bytes@
    }
}

impl Buf {
    /// All bytes of the buffer.
    pub fn as_bytes(&self) -> (r: &[u8])
        ensures
            r@ == self@,
    {
        self.bytes.as_slice()
    }

    /// The string that stands in the buffer from `from` up to, but without, `to`.
    pub fn slice_to_str(&self, from: usize, to: usize) -> (r: Str)
        requires
            from <= to <= self@.len(),
        ensures
            r@ == self@.subrange(from as int, to as int),
    {
        Str::new(vstd::slice::slice_subrange(self.bytes.as_slice(), from, to))
    }
}

} // verus!
