//! Errors of response construction and body reading.
use vstd::prelude::*;

use crate::status::RawStatus;

verus! {

/// Why a response could not be built, or its body not read.
#[derive(Debug)]
pub enum HttpError {
    /// The status line is missing or does not parse.
    MalformedStatusLine,
    /// The status code is outside the known set; the raw status is kept.
    UnknownStatusCode(RawStatus),
    /// A header line does not parse, or the stream ends inside the header section.
    MalformedHeaders,
    /// Content-Length is present but is not a single valid length.
    InvalidContentLength,
    /// A chunk-size line or a chunk terminator does not parse.
    InvalidChunk,
    /// The stream ended inside a chunked body.
    UnexpectedEof,
}

impl HttpError {
    /// The raw status that an unknown status code came with.
    pub fn raw_status(&self) -> (r: Option<&RawStatus>)
        ensures
            match self {
                HttpError::UnknownStatusCode(s) => r == Some(s),
                _ => r is None,
            },
    {
        match self {
            HttpError::UnknownStatusCode(s) => Some(s),
            _ => None,
        }
    }
}

} // verus!
