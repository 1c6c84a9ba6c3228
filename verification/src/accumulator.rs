//! The accumulator: the bytes received from the stream that have not yet left
//! as frames.

use vstd::prelude::*;

verus! {

/// An ordered, growable run of bytes. It grows at its end, and bytes leave it
/// only from its start.
pub struct Accumulator {
    bytes: Vec<u8>,
}

impl View for Accumulator {
    type V = Seq<u8>;

    closed spec fn view(&self) -> Seq<u8> {
        self.bytes@
    }
}

impl Accumulator {
    /// An accumulator that holds nothing.
    pub fn new() -> (accumulator: Accumulator)
        ensures
            accumulator@ == Seq::<u8>::empty(),
    {
        Accumulator { bytes: Vec::new() }
    }

    /// What an accumulator holds can be counted in a `usize`.
    pub proof fn lemma_len_fits(&self)
        ensures
            self@.len() <= usize::MAX,
    {
        assert(self.bytes.len() == self.bytes@.len());
    }

    /// The number of bytes held.
    pub fn len(&self) -> (len: usize)
        ensures
            len == self@.len(),
    {
        self.bytes.len()
    }

    /// The bytes held, first received first.
    pub fn as_slice(&self) -> (bytes: &[u8])
        ensures
            bytes@ == self@,
    {
        self.bytes.as_slice()
    }

    /// Appends `bytes` at the end.
    pub fn append(&mut self, bytes: &[u8])
        ensures
            final(self)@ == old(self)@ + bytes@,
    {
        self.bytes.extend_from_slice(bytes);
        assert(self.bytes@ =~= old(self).bytes@ + bytes@);
    }

    /// Removes the first `n` bytes and returns them. The bytes that stay
    /// move to the front.
    pub fn drain_prefix(&mut self, n: usize) -> (drained: Vec<u8>)
        requires
            n <= old(self)@.len(),
        ensures
            drained@ == old(self)@.take(n as int),
            final(self)@ == old(self)@.skip(n as int),
    {
        let mut kept = self.bytes.split_off(n);
        std::mem::swap(&mut kept, &mut self.bytes);
        kept
    }
}

} // verus!
