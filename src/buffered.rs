//! A read-ahead buffer over a transport.
use vstd::prelude::*;

use crate::transport::Transport;

verus! {

/// How many bytes one refill of the buffer asks of the transport.
pub const BUF_CAPACITY: usize = 1024;

/// A transport with a read-ahead buffer. Bytes read ahead stay part of the
/// stream: `into_inner` hands back a transport positioned at the first byte
/// that was not read through this reader.
pub struct BufReader {
    inner: Transport,
    buf: Vec<u8>,
    start: usize,
}

impl BufReader {
    /// The bytes of the underlying connection.
    pub closed spec fn bytes(&self) -> Seq<u8> {
        self.inner.bytes()
    }

    /// How many bytes have been read through this reader.
    pub closed spec fn position(&self) -> nat {
        (self.inner.position() - (self.buf.len() - self.start)) as nat
    }

    pub closed spec fn wf(&self) -> bool {
        &&& self.inner.wf()
        &&& self.start <= self.buf.len() <= self.inner.position()
        &&& self.buf@ == self.inner.bytes().subrange(
            self.inner.position() - self.buf.len(),
            self.inner.position() as int,
        )
    }

    /// The bytes not yet read through this reader.
    pub open spec fn unread(&self) -> Seq<u8> {
        self.bytes().subrange(self.position() as int, self.bytes().len() as int)
    }

    pub proof fn lemma_position_bound(&self)
        requires
            self.wf(),
        ensures
            self.position() <= self.bytes().len(),
    {
        self.inner.lemma_wf();
    }

    /// The unread part of the buffer is the next part of the stream.
    proof fn lemma_buffered(&self)
        requires
            self.wf(),
        ensures
            self.position() <= self.bytes().len(),
            self.position() + (self.buf.len() - self.start) == self.inner.position(),
            self.inner.position() <= self.bytes().len(),
            forall|k: int|
                0 <= k < self.buf.len() - self.start ==> #[trigger] self.buf@[self.start + k]
                    == self.bytes()[self.position() + k],
    {
        self.inner.lemma_wf();
        assert forall|k: int| 0 <= k < self.buf.len() - self.start implies #[trigger] self.buf@[
            self.start + k] == self.bytes()[self.position() + k] by {
            assert(self.buf@[self.start + k] == self.inner.bytes().subrange(
                self.inner.position() - self.buf.len(),
                self.inner.position() as int,
            )[self.start + k]);
        }
    }

    /// Wraps a transport; nothing is read yet.
    pub fn new(inner: Transport) -> (r: BufReader)
        requires
            inner.wf(),
        ensures
            r.wf(),
            r.bytes() == inner.bytes(),
            r.position() == inner.position(),
    {
        proof { inner.lemma_wf(); }
        let r = BufReader { inner, buf: Vec::new(), start: 0 };
        assert(r.buf@ =~= r.inner.bytes().subrange(
            r.inner.position() - r.buf.len(),
            r.inner.position() as int,
        ));
        r
    }

    /// Refills the buffer from the transport when it holds no unread byte.
    fn fill(&mut self)
        requires
            old(self).wf(),
        ensures
            final(self).wf(),
            final(self).bytes() == old(self).bytes(),
            final(self).position() == old(self).position(),
            final(self).start < final(self).buf.len() || final(self).position()
                == final(self).bytes().len(),
    {
        if self.start == self.buf.len() {
            proof { self.inner.lemma_wf(); }
            self.buf = self.inner.read(BUF_CAPACITY);
            self.start = 0;
            assert(self.buf@ =~= self.inner.bytes().subrange(
                self.inner.position() - self.buf.len(),
                self.inner.position() as int,
            ));
        }
    }

    /// Reads up to `max` bytes, in the order of the stream. An empty result
    /// means `max == 0` or end-of-stream.
    pub fn read(&mut self, max: usize) -> (r: Vec<u8>)
        requires
            old(self).wf(),
        ensures
            final(self).wf(),
            final(self).bytes() == old(self).bytes(),
            r@.len() <= max,
            r@ == old(self).unread().take(r@.len() as int),
            r@.len() == 0 <==> (max == 0 || old(self).unread().len() == 0),
            final(self).position() == old(self).position() + r@.len(),
    {
        self.fill();
        proof { self.lemma_buffered(); }
        let avail = self.buf.len() - self.start;
        let n: usize = if max < avail { max } else { avail };
        let mut r: Vec<u8> = Vec::new();
        let mut i: usize = 0;
        while i < n
            invariant
                self.wf(),
                self.bytes() == old(self).bytes(),
                self.position() == old(self).position(),
                n <= self.buf.len() - self.start,
                i <= n,
                r@ == self.buf@.subrange(self.start as int, self.start + i),
            decreases n - i,
        {
            r.push(self.buf[self.start + i]);
            i = i + 1;
            assert(r@ =~= self.buf@.subrange(self.start as int, self.start + i));
        }
        assert(r@ =~= old(self).unread().take(r@.len() as int));
        self.start = self.start + n;
        r
    }

    /// Reads one byte, or `None` at end-of-stream.
    pub fn read_byte(&mut self) -> (r: Option<u8>)
        requires
            old(self).wf(),
        ensures
            final(self).wf(),
            final(self).bytes() == old(self).bytes(),
            match r {
                Some(b) => old(self).position() < old(self).bytes().len() && b == old(
                    self,
                ).bytes()[old(self).position() as int] && final(self).position() == old(
                    self,
                ).position() + 1,
                None => old(self).position() == old(self).bytes().len() && final(self).position()
                    == old(self).position(),
            },
    {
        self.fill();
        proof { self.lemma_buffered(); }
        if self.start < self.buf.len() {
            let b = self.buf[self.start];
            self.start = self.start + 1;
            Some(b)
        } else {
            None
        }
    }

    /// Gives back the transport, positioned at the first byte not read
    /// through this reader.
    pub fn into_inner(self) -> (r: Transport)
        requires
            self.wf(),
        ensures
            r.wf(),
            r.bytes() == self.bytes(),
            r.position() == self.position(),
    {
        let mut t = self.inner;
        t.unread_last(self.buf.len() - self.start);
        t
    }
}

} // verus!

verus! {

/// The index of the first line feed of `s` at or after `p`, or `s.len()` if there is none.
pub open spec fn newline_at(s: Seq<u8>, p: nat) -> nat
    decreases s.len() - p,
{
    if p >= s.len() {
        s.len()
    } else if s[p as int] == 0x0a {
        p
    } else {
        newline_at(s, p + 1)
    }
}

pub proof fn lemma_newline_at_bounds(s: Seq<u8>, p: nat)
    requires
        p <= s.len(),
    ensures
        p <= newline_at(s, p) <= s.len(),
        newline_at(s, p) < s.len() ==> s[newline_at(s, p) as int] == 0x0a,
    decreases s.len() - p,
{
    if p < s.len() && s[p as int] != 0x0a {
        lemma_newline_at_bounds(s, p + 1);
    }
}

impl BufReader {
    /// Reads one line: the bytes up to the next line feed, which is consumed
    /// and not returned. `None` when the stream ends before a line feed.
    pub fn read_line(&mut self) -> (r: Option<Vec<u8>>)
        requires
            old(self).wf(),
        ensures
            final(self).wf(),
            final(self).bytes() == old(self).bytes(),
            final(self).position() > old(self).position() || (r is None && final(self).position()
                == old(self).position()),
            ({
                let s = old(self).bytes();
                let k = newline_at(s, old(self).position());
                match r {
                    Some(l) => k < s.len() && l@ == s.subrange(old(self).position() as int, k as int)
                        && final(self).position() == k + 1,
                    None => k == s.len() && final(self).position() == s.len(),
                }
            }),
    {
        let ghost s = self.bytes();
        let ghost p0 = self.position();
        proof {
            self.lemma_position_bound();
            lemma_newline_at_bounds(s, p0);
        }
        let mut l: Vec<u8> = Vec::new();
        loop
            invariant
                self.wf(),
                self.bytes() == s,
                s == old(self).bytes(),
                p0 == old(self).position(),
                p0 <= self.position() <= s.len(),
                newline_at(s, self.position()) == newline_at(s, p0),
                l@ == s.subrange(p0 as int, self.position() as int),
            decreases s.len() - self.position(),
        {
            match self.read_byte() {
                None => {
                    return None;
                },
                Some(b) => {
                    if b == 0x0a {
                        return Some(l);
                    }
                    l.push(b);
                    assert(l@ =~= s.subrange(p0 as int, self.position() as int));
                },
            }
        }
    }
}

} // verus!
