//! An owned byte-stream transport holding the bytes of a connection.
use vstd::prelude::*;

verus! {

/// An owned transport: the bytes that the peer sent before closing the
/// connection, and how many of them have been read so far.
pub struct Transport {
    data: Vec<u8>,
    pos: usize,
}

impl Transport {
    /// The bytes the peer sent over the connection.
    pub closed spec fn bytes(&self) -> Seq<u8> {
        self.data@
    }

    /// How many bytes have been read from the connection.
    pub closed spec fn position(&self) -> nat {
        self.pos as nat
    }

    pub closed spec fn wf(&self) -> bool {
        self.pos <= self.data.len()
    }

    /// The bytes not yet read.
    pub open spec fn unread(&self) -> Seq<u8> {
        self.bytes().subrange(self.position() as int, self.bytes().len() as int)
    }

    /// A well-formed transport has not read past the end of its bytes.
    pub proof fn lemma_wf(&self)
        requires
            self.wf(),
        ensures
            self.position() <= self.bytes().len(),
    {
    }

    /// A transport whose peer sends `data` and then closes the connection.
    pub fn new(data: Vec<u8>) -> (r: Transport)
        ensures
            r.wf(),
            r.bytes() == data@,
            r.position() == 0,
    {
        Transport { data, pos: 0 }
    }

    /// How many bytes have been read from the connection.
    pub fn consumed(&self) -> (r: usize)
        requires
            self.wf(),
        ensures
            r == self.position(),
    {
        self.pos
    }

    /// Reads up to `max` bytes; an empty result means end-of-stream (or `max == 0`).
    pub fn read(&mut self, max: usize) -> (r: Vec<u8>)
        requires
            old(self).wf(),
        ensures
            final(self).wf(),
            final(self).bytes() == old(self).bytes(),
            r@.len() == if max as nat <= old(self).unread().len() {
                max as nat
            } else {
                old(self).unread().len()
            },
            r@ == old(self).unread().take(r@.len() as int),
            final(self).position() == old(self).position() + r@.len(),
    {
        let len = self.data.len();
        let end: usize = if max <= len - self.pos { self.pos + max } else { len };
        let mut r: Vec<u8> = Vec::new();
        let mut i: usize = self.pos;
        while i < end
            invariant
                self.wf(),
                self.pos <= i <= end <= len == self.data.len(),
                r@ == self.data@.subrange(self.pos as int, i as int),
            decreases end - i,
        {
            r.push(self.data[i]);
            i = i + 1;
            assert(r@ =~= self.data@.subrange(self.pos as int, i as int));
        }
        assert(r@ =~= self.unread().take(r@.len() as int));
        self.pos = end;
        r
    }

    /// Steps back over the last `n` bytes read, so that they are read again.
    pub(crate) fn unread_last(&mut self, n: usize)
        requires
            old(self).wf(),
            n <= old(self).position(),
        ensures
            final(self).wf(),
            final(self).bytes() == old(self).bytes(),
            final(self).position() == old(self).position() - n,
    {
        self.pos = self.pos - n;
    }
}

} // verus!
