//! The body reader: one of three framings over the buffered transport.
use vstd::prelude::*;

use crate::buffered::{BufReader, newline_at, lemma_newline_at_bounds};
use crate::error::HttpError;
use crate::header::{find_byte, lemma_trim_subseq, trim_copy, trimmed};
use crate::status::strip_cr;

verus! {

/// The state of a body reader.
#[derive(Clone, Copy, Debug, PartialEq, Eq, Structural)]
pub enum ReaderMode {
    /// This many bytes of the body are left.
    Sized(u64),
    /// Chunked: `None` when a chunk-size line comes next, `Some(0)` once the
    /// last chunk has been read, else the bytes left in the current chunk.
    Chunked(Option<u64>),
    /// Everything up to the end of the stream.
    Eof,
}

/// Reads a response body as its framing delimits it, never past its end.
pub struct BodyReader {
    inner: BufReader,
    mode: ReaderMode,
}

pub open spec fn is_hex(b: u8) -> bool {
    (0x30 <= b <= 0x39) || (0x41 <= b <= 0x46) || (0x61 <= b <= 0x66)
}

pub open spec fn hex_value(b: u8) -> nat {
    if 0x30 <= b <= 0x39 {
        (b - 0x30) as nat
    } else if 0x41 <= b <= 0x46 {
        (b - 0x41 + 10) as nat
    } else {
        (b - 0x61 + 10) as nat
    }
}

/// The number that the hexadecimal digits `s` write.
pub open spec fn hex_number(s: Seq<u8>) -> nat
    decreases s.len(),
{
    if s.len() == 0 {
        0
    } else {
        hex_number(s.drop_last()) * 16 + hex_value(s.last())
    }
}

/// The size a chunk-size line states: hexadecimal digits, then an optional
/// extension after `;`, with spaces or tabs around the digits.
pub open spec fn chunk_size_spec(line: Seq<u8>) -> Option<u64> {
    let b = strip_cr(line);
    let d = trimmed(b, 0, find_byte(b, 0, 0x3b));
    if d.len() > 0 && (forall|i: int| 0 <= i < d.len() ==> is_hex(#[trigger] d[i]))
        && hex_number(d) <= u64::MAX {
        Some(hex_number(d) as u64)
    } else {
        None
    }
}

proof fn lemma_hex_prefix(s: Seq<u8>, i: nat)
    requires
        i <= s.len(),
    ensures
        hex_number(s.take(i as int)) <= hex_number(s),
    decreases s.len() - i,
{
    if i < s.len() {
        lemma_hex_prefix(s, i + 1);
        assert(s.take((i + 1) as int).drop_last() =~= s.take(i as int));
    } else {
        assert(s.take(i as int) =~= s);
    }
}

fn parse_hex(s: &Vec<u8>) -> (r: Option<u64>)
    ensures
        r is Some <==> (s@.len() > 0 && (forall|i: int| 0 <= i < s@.len() ==> is_hex(#[trigger] s@[i]))
            && hex_number(s@) <= u64::MAX),
        r matches Some(v) ==> v == hex_number(s@),
{
    if s.len() == 0 {
        return None;
    }
    let mut v: u64 = 0;
    let mut i: usize = 0;
    while i < s.len()
        invariant
            i <= s.len(),
            v == hex_number(s@.take(i as int)),
            forall|j: int| 0 <= j < i ==> is_hex(#[trigger] s@[j]),
        decreases s.len() - i,
    {
        let c = s[i];
        assert(s@.take((i + 1) as int).drop_last() =~= s@.take(i as int));
        let d: u64 = if 0x30 <= c && c <= 0x39 {
            (c - 0x30) as u64
        } else if 0x41 <= c && c <= 0x46 {
            (c - 0x41 + 10) as u64
        } else if 0x61 <= c && c <= 0x66 {
            (c - 0x61 + 10) as u64
        } else {
            return None;
        };
        if v > (u64::MAX - d) / 16 {
            proof {
                lemma_hex_prefix(s@, (i + 1) as nat);
            }
            return None;
        }
        v = v * 16 + d;
        i = i + 1;
    }
    assert(s@.take(i as int) =~= s@);
    Some(v)
}

/// Parses a chunk-size line (the bytes before its line feed).
pub fn parse_chunk_size(line: &Vec<u8>) -> (r: Option<u64>)
    ensures
        r == chunk_size_spec(line@),
{
    let n: usize = if line.len() > 0 && line[line.len() - 1] == 0x0d {
        line.len() - 1
    } else {
        line.len()
    };
    let ghost b = strip_cr(line@);
    assert(b =~= line@.take(n as int));
    let mut k: usize = 0;
    while k < n && line[k] != 0x3b
        invariant
            k <= n <= line.len(),
            b == line@.take(n as int),
            find_byte(b, k as nat, 0x3b) == find_byte(b, 0, 0x3b),
        decreases n - k,
    {
        k = k + 1;
    }
    assert(find_byte(b, k as nat, 0x3b) == k);
    let d = trim_copy(line, 0, k);
    proof {
        lemma_trim_subseq(line@, b, 0, k as nat);
    }
    parse_hex(&d)
}

/// The index just past the empty line that ends the trailer starting at `p`.
pub open spec fn trailer_end(s: Seq<u8>, p: nat) -> Option<nat>
    decreases s.len() - p,
{
    let k = newline_at(s, p);
    if k >= s.len() || k < p {
        None
    } else if strip_cr(s.subrange(p as int, k as int)).len() == 0 {
        Some(k + 1)
    } else {
        trailer_end(s, k + 1)
    }
}

/// What a chunked body holds from the chunk-size line at `p` on: the decoded
/// bytes, and the index just past the trailer's empty line. `None` when the
/// encoding is broken or the stream ends first.
pub open spec fn chunked_body(s: Seq<u8>, p: nat) -> Option<(Seq<u8>, nat)>
    decreases s.len() - p,
{
    let k = newline_at(s, p);
    if k >= s.len() || k < p {
        None
    } else {
        match chunk_size_spec(s.subrange(p as int, k as int)) {
            None => None,
            Some(n) => if n == 0 {
                match trailer_end(s, k + 1) {
                    Some(e) => Some((Seq::empty(), e)),
                    None => None,
                }
            } else {
                let d = (k + 1 + n) as nat;
                let t = newline_at(s, d);
                if d > s.len() || t >= s.len() || t < d || strip_cr(
                    s.subrange(d as int, t as int),
                ).len() != 0 {
                    None
                } else {
                    match chunked_body(s, t + 1) {
                        Some((rest, e)) => Some((s.subrange((k + 1) as int, d as int) + rest, e)),
                        None => None,
                    }
                }
            },
        }
    }
}

/// One read of a chunked body that is well encoded from where the reader
/// stands: it yields the next decoded bytes, at most `max`, none only when the
/// body is done (or `max == 0`), and what is left afterwards is the rest.
pub open spec fn chunked_step(
    s: Seq<u8>,
    st: Option<u64>,
    pos: nat,
    max: usize,
    r: Result<Vec<u8>, HttpError>,
    st2: ReaderMode,
    pos2: nat,
) -> bool {
    match chunked_rest(s, st, pos) {
        Some((b, e)) => match (r, st2) {
            (Ok(v), ReaderMode::Chunked(st3)) => v@ == b.take(v@.len() as int) && (v@.len() == 0
                <==> (max == 0 || b.len() == 0)) && chunked_rest(s, st3, pos2) == Some(
                (b.skip(v@.len() as int), e),
            ),
            _ => false,
        },
        None => true,
    }
}

/// What is left of a chunked body for a reader at `pos` in state `st`.
pub open spec fn chunked_rest(s: Seq<u8>, st: Option<u64>, pos: nat) -> Option<(Seq<u8>, nat)> {
    match st {
        None => chunked_body(s, pos),
        Some(n) => if n == 0 {
            Some((Seq::empty(), pos))
        } else {
            let d = (pos + n) as nat;
            let t = newline_at(s, d);
            if d > s.len() || t >= s.len() || t < d || strip_cr(
                s.subrange(d as int, t as int),
            ).len() != 0 {
                None
            } else {
                match chunked_body(s, t + 1) {
                    Some((rest, e)) => Some((s.subrange(pos as int, d as int) + rest, e)),
                    None => None,
                }
            }
        },
    }
}

impl BodyReader {
    /// The buffered transport under the body.
    pub closed spec fn inner(&self) -> BufReader {
        self.inner
    }

    /// The state of the reader.
    pub closed spec fn mode(&self) -> ReaderMode {
        self.mode
    }

    pub open spec fn wf(&self) -> bool {
        self.inner().wf()
    }

    /// A body reader in the given state over `inner`.
    pub fn new(inner: BufReader, mode: ReaderMode) -> (r: BodyReader)
        ensures
            r.inner() == inner,
            r.mode() == mode,
    {
        BodyReader { inner, mode }
    }

    /// The state of the reader.
    pub fn get_mode(&self) -> (r: ReaderMode)
        ensures
            r == self.mode(),
    {
        self.mode
    }

    /// Reads up to `max` bytes of the body. An empty `Ok` means the end of
    /// the body (or `max == 0`).
    pub fn read(&mut self, max: usize) -> (r: Result<Vec<u8>, HttpError>)
        requires
            old(self).wf(),
        ensures
            final(self).wf(),
            final(self).inner().bytes() == old(self).inner().bytes(),
            final(self).inner().position() >= old(self).inner().position(),
            r matches Ok(v) ==> v@.len() <= max,
            match old(self).mode() {
                ReaderMode::Sized(rem) => r matches Ok(v) && v@.len() <= rem
                    && v@ == old(self).inner().unread().take(v@.len() as int)
                    && final(self).mode() == ReaderMode::Sized((rem - v@.len()) as u64)
                    && final(self).inner().position() == old(self).inner().position() + v@.len()
                    && (v@.len() == 0 <==> (max == 0 || rem == 0 || old(self).inner().unread().len() == 0)),
                ReaderMode::Eof => r matches Ok(v) && v@ == old(self).inner().unread().take(
                    v@.len() as int,
                ) && final(self).mode() == ReaderMode::Eof && final(self).inner().position()
                    == old(self).inner().position() + v@.len() && (v@.len() == 0 <==> (max == 0
                    || old(self).inner().unread().len() == 0)),
                ReaderMode::Chunked(st) => final(self).mode() is Chunked && (st == Some(0u64)
                    ==> (r matches Ok(v) && v@.len() == 0 && final(self).inner() == old(
                    self,
                ).inner() && final(self).mode() == old(self).mode())) && chunked_step(
                    old(self).inner().bytes(),
                    st,
                    old(self).inner().position(),
                    max,
                    r,
                    final(self).mode(),
                    final(self).inner().position(),
                ),
            },
    {
        match self.mode {
            ReaderMode::Sized(rem) => {
                let m: usize = if (max as u64) < rem {
                    max
                } else {
                    rem as usize
                };
                let v = self.inner.read(m);
                self.mode = ReaderMode::Sized(rem - v.len() as u64);
                Ok(v)
            },
            ReaderMode::Eof => Ok(self.inner.read(max)),
            ReaderMode::Chunked(st) => self.read_chunked(st, max),
        }
    }

    fn read_chunked(&mut self, st: Option<u64>, max: usize) -> (r: Result<Vec<u8>, HttpError>)
        requires
            old(self).wf(),
            old(self).mode() == ReaderMode::Chunked(st),
        ensures
            final(self).wf(),
            final(self).inner().bytes() == old(self).inner().bytes(),
            final(self).inner().position() >= old(self).inner().position(),
            r matches Ok(v) ==> v@.len() <= max,
            final(self).mode() is Chunked,
            st == Some(0u64) ==> (r matches Ok(v) && v@.len() == 0 && *final(self) == *old(self)),
            chunked_step(
                old(self).inner().bytes(),
                st,
                old(self).inner().position(),
                max,
                r,
                final(self).mode(),
                final(self).inner().position(),
            ),
    {
        let ghost s = self.inner().bytes();
        let ghost p0 = self.inner().position();
        let ghost rest = chunked_rest(s, st, p0);
        if max == 0 || st == Some(0u64) {
            proof {
                match rest {
                    Some((b, e)) => {
                        assert(b.skip(0) =~= b);
                        assert(b.take(0) =~= Seq::<u8>::empty());
                    },
                    None => {},
                }
            }
            return Ok(Vec::new());
        }
        match st {
            Some(n) => self.read_chunk_data(n, max),
            None => {
                proof {
                    self.inner.lemma_position_bound();
                    lemma_newline_at_bounds(s, p0);
                }
                let line = match self.inner.read_line() {
                    Some(l) => l,
                    None => return Err(HttpError::UnexpectedEof),
                };
                let size = match parse_chunk_size(&line) {
                    Some(n) => n,
                    None => return Err(HttpError::InvalidChunk),
                };
                if size == 0 {
                    match self.read_trailer() {
                        Ok(()) => {},
                        Err(e) => return Err(e),
                    }
                    self.mode = ReaderMode::Chunked(Some(0));
                    assert(Seq::<u8>::empty().skip(0) =~= Seq::<u8>::empty());
                    assert(Seq::<u8>::empty().take(0) =~= Seq::<u8>::empty());
                    Ok(Vec::new())
                } else {
                    assert(rest == chunked_rest(s, Some(size), self.inner().position()));
                    self.read_chunk_data(size, max)
                }
            },
        }
    }

    /// Reads trailer lines up to and including the empty line that ends them.
    fn read_trailer(&mut self) -> (r: Result<(), HttpError>)
        requires
            old(self).wf(),
            old(self).mode() is Chunked,
        ensures
            final(self).wf(),
            final(self).inner().bytes() == old(self).inner().bytes(),
            final(self).inner().position() >= old(self).inner().position(),
            final(self).mode() == old(self).mode(),
            trailer_end(old(self).inner().bytes(), old(self).inner().position()) matches Some(e)
                ==> (r is Ok && final(self).inner().position() == e),
    {
        let ghost s = self.inner().bytes();
        let ghost p0 = self.inner().position();
        loop
            invariant
                self.wf(),
                self.inner().bytes() == s,
                s == old(self).inner().bytes(),
                p0 == old(self).inner().position(),
                self.inner().position() >= p0,
                self.mode() == old(self).mode(),
                trailer_end(s, p0) is Some ==> trailer_end(s, self.inner().position())
                    == trailer_end(s, p0),
            decreases s.len() - self.inner().position(),
        {
            proof {
                self.inner.lemma_position_bound();
                lemma_newline_at_bounds(s, self.inner().position());
            }
            match self.inner.read_line() {
                None => return Err(HttpError::UnexpectedEof),
                Some(l) => {
                    if l.len() == 0 || (l.len() == 1 && l[0] == 0x0d) {
                        assert(strip_cr(l@).len() == 0);
                        return Ok(());
                    }
                    assert(strip_cr(l@).len() != 0);
                },
            }
        }
    }

    /// Reads data of the current chunk, of which `rem` bytes are left, and
    /// the line end after the chunk once it is done.
    fn read_chunk_data(&mut self, rem: u64, max: usize) -> (r: Result<Vec<u8>, HttpError>)
        requires
            old(self).wf(),
            rem > 0,
            max > 0,
        ensures
            final(self).wf(),
            final(self).inner().bytes() == old(self).inner().bytes(),
            final(self).inner().position() >= old(self).inner().position(),
            r matches Ok(v) ==> v@.len() <= max,
            final(self).mode() is Chunked,
            chunked_step(
                old(self).inner().bytes(),
                Some(rem),
                old(self).inner().position(),
                max,
                r,
                final(self).mode(),
                final(self).inner().position(),
            ),
    {
        let ghost s = self.inner().bytes();
        let ghost q = self.inner().position();
        let ghost rest = chunked_rest(s, Some(rem), q);
        let m: usize = if (max as u64) < rem {
            max
        } else {
            rem as usize
        };
        proof {
            self.inner.lemma_position_bound();
        }
        let v = self.inner.read(m);
        if v.len() == 0 {
            self.mode = ReaderMode::Chunked(Some(rem));
            return Err(HttpError::UnexpectedEof);
        }
        let left = rem - v.len() as u64;
        let ghost d = (q + rem) as nat;
        if left == 0 {
            proof {
                self.inner.lemma_position_bound();
                lemma_newline_at_bounds(s, d);
            }
            match self.inner.read_line() {
                None => {
                    self.mode = ReaderMode::Chunked(None);
                    return Err(HttpError::UnexpectedEof);
                },
                Some(l) => {
                    if !(l.len() == 0 || (l.len() == 1 && l[0] == 0x0d)) {
                        assert(strip_cr(l@).len() != 0);
                        self.mode = ReaderMode::Chunked(None);
                        return Err(HttpError::InvalidChunk);
                    }
                    assert(strip_cr(l@).len() == 0);
                },
            }
            self.mode = ReaderMode::Chunked(None);
            proof {
                match rest {
                    Some((b, e)) => {
                        let t = newline_at(s, d);
                        let tail = chunked_body(s, t + 1).unwrap().0;
                        assert(b == s.subrange(q as int, d as int) + tail);
                        assert(b.take(v@.len() as int) =~= v@);
                        assert(b.skip(v@.len() as int) =~= tail);
                    },
                    None => {},
                }
            }
        } else {
            self.mode = ReaderMode::Chunked(Some(left));
            proof {
                match rest {
                    Some((b, e)) => {
                        let t = newline_at(s, d);
                        let tail = chunked_body(s, t + 1).unwrap().0;
                        assert(b == s.subrange(q as int, d as int) + tail);
                        assert(b.take(v@.len() as int) =~= v@);
                        assert(b.skip(v@.len() as int) =~= s.subrange((q + v@.len()) as int, d as int)
                            + tail);
                    },
                    None => {},
                }
            }
        }
        Ok(v)
    }

    /// Gives back the buffered transport, at the position reached.
    pub fn into_inner(self) -> (r: BufReader)
        ensures
            r == self.inner(),
    {
        self.inner
    }
}

} // verus!
