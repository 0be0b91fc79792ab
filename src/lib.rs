//! Client-side HTTP/1.x responses over an owned transport.
//!
//! A response is read from a [`transport::Transport`] through a read-ahead
//! buffer: the status line, then the header section, from which one body
//! framing is selected (chunked, fixed length, or read to close). The body is
//! read through that framing and never past its end, and `Response::unwrap`
//! hands the transport back positioned at the first byte not consumed.
use vstd::prelude::*;

pub mod transport;
pub mod buffered;
pub mod status;
pub mod header;
pub mod framing;
pub mod error;
pub mod body;
pub mod response;

verus! {

} // verus!
