//! Client responses: status, headers and a body framed as the headers say.
use vstd::prelude::*;

use crate::body::{BodyReader, ReaderMode, chunked_body, chunked_rest, chunked_step};
use crate::buffered::{BufReader, newline_at, lemma_newline_at_bounds};
use crate::error::HttpError;
use crate::framing::{Framing, framing_of, select_framing};
use crate::header::{Headers, header_section, read_headers};
use crate::status::{
    HttpVersion, RawStatus, StatusCode, is_known_status, parse_status_line, parse_status_spec,
};
use crate::transport::Transport;

verus! {

/// A response for a client request to a remote server.
pub struct Response {
    /// The status from the server.
    pub status: StatusCode,
    /// The headers from the server.
    pub headers: Headers,
    /// The HTTP version of this response from the server.
    pub version: HttpVersion,
    status_raw: RawStatus,
    body: BodyReader,
    body_start: Ghost<nat>,
    framing: Ghost<Framing>,
    chunked_end: Ghost<Option<nat>>,
}

/// What the status line starting at `p` holds, if a whole line is there and parses.
pub open spec fn status_line_at(s: Seq<u8>, p: nat) -> Option<(HttpVersion, u16, Seq<u8>)> {
    let k = newline_at(s, p);
    if p <= k < s.len() {
        parse_status_spec(s.subrange(p as int, k as int))
    } else {
        None
    }
}

/// The reader state that a framing starts in.
pub open spec fn initial_mode(f: Framing) -> ReaderMode {
    match f {
        Framing::Chunked => ReaderMode::Chunked(None),
        Framing::FixedLength(n) => ReaderMode::Sized(n),
        Framing::ReadToClose => ReaderMode::Eof,
    }
}

/// The framing that a reader state belongs to.
pub open spec fn framing_of_mode(m: ReaderMode) -> Framing {
    match m {
        ReaderMode::Chunked(_) => Framing::Chunked,
        ReaderMode::Sized(n) => Framing::FixedLength(n),
        ReaderMode::Eof => Framing::ReadToClose,
    }
}

impl Response {
    /// The status field.
    pub closed spec fn spec_status(&self) -> StatusCode {
        self.status
    }

    /// The headers field.
    pub closed spec fn spec_headers(&self) -> Headers {
        self.headers
    }

    /// The version field.
    pub closed spec fn spec_version(&self) -> HttpVersion {
        self.version
    }

    /// The bytes of the connection.
    pub closed spec fn bytes(&self) -> Seq<u8> {
        self.body.inner().bytes()
    }

    /// How many bytes of the connection have been consumed.
    pub closed spec fn position(&self) -> nat {
        self.body.inner().position()
    }

    /// Where the body starts on the connection.
    pub closed spec fn body_start(&self) -> nat {
        self.body_start@
    }

    /// The framing selected for the body.
    pub closed spec fn framing(&self) -> Framing {
        self.framing@
    }

    /// Where a well-encoded chunked body ends on the connection, once known.
    pub closed spec fn chunked_end(&self) -> Option<nat> {
        self.chunked_end@
    }

    /// The state of the body reader.
    pub closed spec fn mode(&self) -> ReaderMode {
        self.body.mode()
    }

    /// The raw status line values.
    pub closed spec fn raw(&self) -> RawStatus {
        self.status_raw
    }

    /// The bytes of the connection not yet consumed.
    pub open spec fn unread(&self) -> Seq<u8> {
        self.bytes().subrange(self.position() as int, self.bytes().len() as int)
    }

    pub closed spec fn wf(&self) -> bool {
        &&& self.body.wf()
        &&& self.body_start@ <= self.body.inner().position() <= self.body.inner().bytes().len()
        &&& match self.framing@ {
            Framing::FixedLength(n) => self.body.mode() matches ReaderMode::Sized(rem) && rem
                <= n && self.body.inner().position() == self.body_start@ + (n - rem),
            Framing::ReadToClose => self.body.mode() == ReaderMode::Eof,
            Framing::Chunked => self.body.mode() matches ReaderMode::Chunked(st) && (
            self.chunked_end@ matches Some(e) ==> chunked_rest(
                self.body.inner().bytes(),
                st,
                self.body.inner().position(),
            ) matches Some((_, e2)) && e2 == e),
        }
    }

    /// Reads the status line and the header section from `stream`, and sets
    /// up the body reader that the headers call for.
    pub fn new(stream: Transport) -> (r: Result<Response, HttpError>)
        requires
            stream.wf(),
        ensures
            ({
                let s = stream.bytes();
                let p = stream.position();
                match status_line_at(s, p) {
                    None => r matches Err(HttpError::MalformedStatusLine),
                    Some((v, code, reason)) => if !is_known_status(code) {
                        r matches Err(HttpError::UnknownStatusCode(raw)) && raw.code == code
                            && raw.reason@ == reason
                    } else {
                        match header_section(s, newline_at(s, p) + 1) {
                            None => r matches Err(HttpError::MalformedHeaders),
                            Some((h, end)) => match framing_of(h) {
                                None => r matches Err(HttpError::InvalidContentLength),
                                Some(f) => r matches Ok(resp) && resp.wf() && resp.spec_version() == v
                                    && resp.spec_status()@ == code && resp.raw().code == code
                                    && resp.raw().reason@ == reason && resp.spec_headers()@ == h
                                    && resp.framing() == f && resp.mode() == initial_mode(f)
                                    && resp.bytes() == s && resp.body_start() == end
                                    && resp.position() == end && (f == Framing::Chunked
                                    ==> resp.chunked_end() == match chunked_body(s, end) {
                                    Some((_, e)) => Some(e),
                                    None => None::<nat>,
                                }),
                            },
                        }
                    },
                }
            }),
    {
        let ghost s = stream.bytes();
        let ghost p = stream.position();
        let mut stream = BufReader::new(stream);
        proof {
            stream.lemma_position_bound();
            lemma_newline_at_bounds(s, p);
        }
        let line = match stream.read_line() {
            Some(l) => l,
            None => return Err(HttpError::MalformedStatusLine),
        };
        let (version, raw_status) = match parse_status_line(&line) {
            Some(x) => x,
            None => return Err(HttpError::MalformedStatusLine),
        };
        let status = match StatusCode::from_u16(raw_status.code) {
            Some(st) => st,
            None => return Err(HttpError::UnknownStatusCode(raw_status)),
        };
        let headers = match read_headers(&mut stream) {
            Some(h) => h,
            None => return Err(HttpError::MalformedHeaders),
        };
        let framing = match select_framing(&headers) {
            Some(f) => f,
            None => return Err(HttpError::InvalidContentLength),
        };
        let mode = match framing {
            Framing::Chunked => ReaderMode::Chunked(None),
            Framing::FixedLength(n) => ReaderMode::Sized(n),
            Framing::ReadToClose => ReaderMode::Eof,
        };
        proof {
            stream.lemma_position_bound();
        }
        let ghost start = stream.position();
        let ghost cend = match chunked_body(s, start) {
            Some((_, e)) => Some(e),
            None => None::<nat>,
        };
        let body = BodyReader::new(stream, mode);
        Ok(
            Response {
                status,
                headers,
                version,
                status_raw: raw_status,
                body,
                body_start: Ghost(start),
                framing: Ghost(framing),
                chunked_end: Ghost(cend),
            },
        )
    }

    /// Assembles a response from its parts; the body starts where `body` stands.
    pub fn from_parts(
        status: StatusCode,
        headers: Headers,
        version: HttpVersion,
        status_raw: RawStatus,
        body: BodyReader,
    ) -> (r: Response)
        requires
            body.wf(),
        ensures
            r.wf(),
            r.spec_status() == status,
            r.spec_headers() == headers,
            r.spec_version() == version,
            r.raw() == status_raw,
            r.bytes() == body.inner().bytes(),
            r.position() == body.inner().position(),
            r.body_start() == body.inner().position(),
            r.mode() == body.mode(),
            r.framing() == framing_of_mode(body.mode()),
            r.chunked_end() is None,
    {
        proof {
            body.inner().lemma_position_bound();
        }
        let ghost start = body.inner().position();
        let ghost f = framing_of_mode(body.mode());
        Response {
            status,
            headers,
            version,
            status_raw,
            body,
            body_start: Ghost(start),
            framing: Ghost(f),
            chunked_end: Ghost(None),
        }
    }

    /// Get the raw status code and reason.
    pub fn status_raw(&self) -> (r: &RawStatus)
        ensures
            *r == self.raw(),
    {
        &self.status_raw
    }

    /// Reads up to `max` bytes of the body; an empty `Ok` means the end of
    /// the body (or `max == 0`). Never reads past the end of the body.
    pub fn read(&mut self, max: usize) -> (r: Result<Vec<u8>, HttpError>)
        requires
            old(self).wf(),
        ensures
            final(self).wf(),
            final(self).bytes() == old(self).bytes(),
            final(self).framing() == old(self).framing(),
            final(self).body_start() == old(self).body_start(),
            final(self).chunked_end() == old(self).chunked_end(),
            final(self).position() >= old(self).position(),
            r matches Ok(v) ==> v@.len() <= max,
            match old(self).framing() {
                Framing::FixedLength(_) => old(self).mode() matches ReaderMode::Sized(rem)
                    && r matches Ok(v) && v@.len() <= rem && v@ == old(self).unread().take(
                    v@.len() as int,
                ) && final(self).position() == old(self).position() + v@.len() && (v@.len() == 0
                    <==> (max == 0 || rem == 0 || old(self).unread().len() == 0)),
                Framing::ReadToClose => r matches Ok(v) && v@ == old(self).unread().take(
                    v@.len() as int,
                ) && final(self).position() == old(self).position() + v@.len() && (v@.len() == 0
                    <==> (max == 0 || old(self).unread().len() == 0)),
                Framing::Chunked => old(self).mode() matches ReaderMode::Chunked(st) && (st == Some(
                    0u64,
                ) ==> (r matches Ok(v) && v@.len() == 0 && final(self).position() == old(
                    self,
                ).position() && final(self).mode() == old(self).mode())) && chunked_step(
                    old(self).bytes(),
                    st,
                    old(self).position(),
                    max,
                    r,
                    final(self).mode(),
                    final(self).position(),
                ),
            },
    {
        proof {
            self.body.inner().lemma_position_bound();
        }
        let r = self.body.read(max);
        proof {
            self.body.inner().lemma_position_bound();
        }
        r
    }

    /// Unwraps the response to return the transport underneath, positioned at
    /// the first byte that the response has not consumed.
    pub fn unwrap(self) -> (r: Transport)
        requires
            self.wf(),
        ensures
            r.wf(),
            r.bytes() == self.bytes(),
            r.position() == self.position(),
    {
        self.body.into_inner().into_inner()
    }
}

} // verus!

verus! {

/// A fixed-length body never yields more than its length: whatever has been
/// read, the response has consumed at most `n` bytes past the body's start.
pub proof fn lemma_fixed_length_bound(r: &Response, n: u64)
    requires
        r.wf(),
        r.framing() == Framing::FixedLength(n),
    ensures
        r.body_start() <= r.position() <= r.body_start() + n,
{
}

/// Once a fixed-length body is drained, the response stands right after the
/// body: unwrapping then gives a transport at the next response's first byte.
pub proof fn lemma_drained_at_boundary(r: &Response, n: u64)
    requires
        r.wf(),
        r.framing() == Framing::FixedLength(n),
        r.mode() == ReaderMode::Sized(0),
    ensures
        r.position() == r.body_start() + n,
{
}

/// Once a well-encoded chunked body is drained, the response stands right
/// after the trailer's empty line: nothing of the next response is consumed.
pub proof fn lemma_chunked_drained_at_boundary(r: &Response, e: nat)
    requires
        r.wf(),
        r.framing() == Framing::Chunked,
        r.chunked_end() == Some(e),
        r.mode() == ReaderMode::Chunked(Some(0u64)),
    ensures
        r.position() == e,
{
}

/// A body read to the end of the stream is drained exactly when nothing of
/// the connection is left.
pub proof fn lemma_read_to_close_drained(r: &Response)
    requires
        r.wf(),
        r.framing() == Framing::ReadToClose,
        r.unread().len() == 0,
    ensures
        r.position() == r.bytes().len(),
{
}

} // verus!
