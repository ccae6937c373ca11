//! An in-memory byte source that hands out its bytes in refill chunks.

use vstd::prelude::*;

verus! {

/// The bytes that a source with `capacity` hands out from `rest` in one refill.
pub open spec fn chunk_of(rest: Seq<u8>, capacity: nat) -> Seq<u8> {
    if rest.len() <= capacity {
        rest
    } else {
        rest.take(capacity as int)
    }
}

/// A copy of `data` in a new vector.
fn copy_bytes(data: &[u8]) -> (r: Vec<u8>)
    ensures
        r@ == data@,
        r@.len() <= usize::MAX,
{
    let mut r: Vec<u8> = Vec::with_capacity(data.len());
    r.extend_from_slice(data);
    assert(r@ =~= data@);
    r
}

/// A buffered byte source over bytes held in memory.
///
/// Each refill exposes at most `capacity` of the bytes not yet consumed, as a
/// buffered reader does; an empty refill means the end of the stream.
pub struct ByteSource {
    data: Vec<u8>,
    pos: usize,
    capacity: usize,
}

impl ByteSource {
    /// The bytes not yet consumed.
    pub closed spec fn rest(&self) -> Seq<u8> {
        self.data@.subrange(self.pos as int, self.data@.len() as int)
    }

    /// The largest number of bytes one refill exposes.
    pub closed spec fn capacity(&self) -> nat {
        self.capacity as nat
    }

    /// The number of bytes consumed so far.
    pub closed spec fn consumed(&self) -> nat {
        self.pos as nat
    }

    pub closed spec fn wf(&self) -> bool {
        &&& self.pos <= self.data@.len()
        &&& self.capacity >= 1
        &&& self.data@.len() <= usize::MAX
    }

    /// The bytes consumed and the bytes not yet consumed fit in memory.
    pub proof fn lemma_rest_fits(&self)
        requires
            self.wf(),
        ensures
            self.consumed() + self.rest().len() <= usize::MAX,
            self.capacity() >= 1,
    {
    }

    /// A source that hands out all of `data` in one refill.
    pub fn new(data: &[u8]) -> (r: ByteSource)
        ensures
            r.wf(),
            r.rest() == data@,
            r.consumed() == 0,
            r.capacity() >= data@.len(),
    {
        let capacity = if data.len() == 0 { 1 } else { data.len() };
        let r = ByteSource { data: copy_bytes(data), pos: 0, capacity };
        assert(r.rest() =~= data@);
        r
    }

    /// A source that hands out `data` in refills of at most `capacity` bytes
    /// (one byte where `capacity` is zero).
    pub fn with_capacity(data: &[u8], capacity: usize) -> (r: ByteSource)
        ensures
            r.wf(),
            r.rest() == data@,
            r.consumed() == 0,
            r.capacity() == if capacity == 0 { 1 } else { capacity as nat },
    {
        let capacity = if capacity == 0 { 1 } else { capacity };
        let r = ByteSource { data: copy_bytes(data), pos: 0, capacity };
        assert(r.rest() =~= data@);
        r
    }

    /// The next refill: the first bytes not yet consumed, empty at the end.
    pub fn fill_buf(&self) -> (r: &[u8])
        requires
            self.wf(),
        ensures
            r@ == chunk_of(self.rest(), self.capacity()),
    {
        let end = if self.data.len() - self.pos <= self.capacity {
            self.data.len()
        } else {
            self.pos + self.capacity
        };
        let r = &self.data.as_slice()[self.pos..end];
        assert(r@ =~= chunk_of(self.rest(), self.capacity()));
        r
    }

    /// Marks the first `amt` bytes of the last refill as consumed.
    pub fn consume(&mut self, amt: usize)
        requires
            old(self).wf(),
            amt <= chunk_of(old(self).rest(), old(self).capacity()).len(),
        ensures
            final(self).wf(),
            final(self).rest() == old(self).rest().skip(amt as int),
            final(self).capacity() == old(self).capacity(),
            final(self).consumed() == old(self).consumed() + amt,
    {
        assert(chunk_of(self.rest(), self.capacity()).len() <= self.rest().len());
        self.pos = self.pos + amt;
        assert(self.rest() =~= old(self).rest().skip(amt as int));
    }
}

} // verus!
