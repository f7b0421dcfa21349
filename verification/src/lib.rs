//! Watch a stream of concatenated JSON values and hand them out one by one.
//!
//! The heart of the crate is an incremental decoder: it receives the bytes of
//! an open-ended response body in chunks of any size, discovers where one
//! complete JSON value ends and the next begins (the wire format has no
//! delimiters between values), and produces one outcome per discovered value.
//! A value that fails to decode is reported as an error item; the stream of
//! outcomes continues with the next value.
//!
//! The boundary discovery, the incremental decoder and the construction of
//! the watch address are verified; the HTTP request itself and the thread
//! that pumps a response body through a decoder live outside this crate.

use vstd::prelude::*;

pub mod cluster;
pub mod decode;
pub mod ext;
pub mod scan;

pub use crate::cluster::Cluster;
pub use crate::decode::decode_all;
pub use crate::decode::decode_frame;
pub use crate::decode::Decoder;
pub use crate::decode::Framing;

verus! {

/// Everything that can go wrong while setting up or consuming a watch.
#[derive(Debug)]
pub enum Error {
    /// The base address, or a resource path joined to it, is not a
    /// well-formed URL.  Carries the url crate's diagnostic.
    InvalidUrl(url::ParseError),
    /// The transport could not complete the watch request.  Raised by the
    /// code that performs the request, outside this library; carried here so
    /// that one error type covers a whole watch.
    RequestFailed(String),
    /// One discovered value could not be decoded.  Not fatal: the stream of
    /// outcomes continues past it.  Carries the decoder's diagnostic as
    /// text.
    DecodeFailed(String),
}

} // verus!
