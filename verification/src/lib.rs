//! Parser and serializer for `multipart/x-mixed-replace` streams.
//!
//! A multipart stream is a sequence of parts, each a boundary line, a block of
//! headers and a body whose length the `Content-Length` header gives. The
//! parser and the serializer here are state machines that do no I/O: the
//! caller hands them bytes (or parts) and takes parts (or bytes) back.

pub mod outside;
pub mod wire;
pub mod parser;
pub mod serializer;
pub mod laws;

use vstd::prelude::*;
use bytes::Bytes;
use http::header::HeaderMap;
use crate::outside::{bytes_contents, header_map_contents, header_map_items};
use crate::wire::HeadersView;

pub use parser::{parse, Error, ErrorKind, Next, Parser, ParserBuilder};
pub use serializer::{serialize, Serializer};

verus! {

/// A single part, including its headers and body.
#[derive(Clone, Debug, Eq, PartialEq)]
pub struct Part {
    pub headers: HeaderMap,
    pub body: Bytes,
}

/// A part as a mathematical value.
pub struct PartView {
    pub headers: HeadersView,
    /// The headers' (name, value) pairs in the order the map yields them.
    pub items: Seq<(Seq<u8>, Seq<u8>)>,
    pub body: Seq<u8>,
}

impl View for Part {
    type V = PartView;

    open spec fn view(&self) -> PartView {
        PartView {
            headers: header_map_contents(self.headers),
            items: header_map_items(self.headers),
            body: bytes_contents(self.body),
        }
    }
}

} // verus!
