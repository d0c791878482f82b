//! Serializes parts into a byte stream.
//!
//! [`Serializer`] frames each part: the boundary line, then the header block
//! (with `Content-Length` set to the body's length), then the body. The caller
//! hands it parts ([`Serializer::start_part`]) and takes the chunks to send
//! ([`Serializer::next_chunk`]).

use vstd::prelude::*;
use vstd::string::StringSliceAdditionalSpecFns;
use bytes::Bytes;
use http::header::HeaderMap;
use crate::{Part, PartView};
use crate::outside::{
    bytes_as_slice, bytes_contents, bytes_mut_freeze, bytes_mut_new, bytes_mut_put,
    bytes_mut_with_capacity, content_length_header, header_map_contents, header_map_insert,
    header_map_items, header_map_pairs, header_value_from_usize, slice_pairs,
};
use crate::wire::{
    content_length_name, decimal, grouped, header_block, header_lines, items_insert, lists_headers,
    serializer_boundary_line, HeadersView,
};

verus! {

/// Whether every header block that lists `headers` fits in a buffer.
pub open spec fn header_block_fits(headers: HeadersView) -> bool {
    forall|pairs: Seq<(Seq<u8>, Seq<u8>)>| #[trigger] lists_headers(pairs, headers) ==> header_block(pairs).len() <= isize::MAX
}

/// `headers` with `Content-Length` set to `body_len`, as the serializer sends them.
pub open spec fn with_content_length(headers: HeadersView, body_len: nat) -> HeadersView {
    headers.insert(content_length_name(), seq![decimal(body_len)])
}

/// The header lines of a prefix of `pairs` are no longer than those of all of them.
proof fn lemma_header_lines_prefix(pairs: Seq<(Seq<u8>, Seq<u8>)>, k: int)
    requires
        0 <= k <= pairs.len(),
    ensures
        header_lines(pairs.take(k)).len() <= header_lines(pairs).len(),
    decreases pairs.len(),
{
    if k < pairs.len() {
        lemma_header_lines_prefix(pairs.drop_last(), k);
        assert(pairs.drop_last().take(k) =~= pairs.take(k));
    } else {
        assert(pairs.take(k) =~= pairs);
    }
}

/// Serializes HTTP headers into the usual form, including a final empty line:
/// a line for each (name, value) pair in the order the map yields them.
fn serialize_headers(headers: HeaderMap) -> (res: Bytes)
    requires
        header_block_fits(header_map_contents(headers)),
    ensures
        bytes_contents(res) == header_block(header_map_items(headers)),
        lists_headers(header_map_items(headers), header_map_contents(headers)),
        grouped(header_map_items(headers)),
{
    let pairs = header_map_pairs(&headers);
    let ghost listed = slice_pairs(pairs@);
    assert(header_block(listed).len() <= isize::MAX);
    let colon_space: Vec<u8> = vec![58u8, 32u8];
    let crlf: Vec<u8> = vec![13u8, 10u8];
    let mut b = bytes_mut_new();
    let mut i: usize = 0;
    while i < pairs.len()
        invariant
            i <= pairs@.len(),
            listed == slice_pairs(pairs@),
            header_lines(listed).len() + 2 <= isize::MAX,
            colon_space@ == seq![58u8, 32u8],
            crlf@ == seq![13u8, 10u8],
            crate::outside::bytes_mut_contents(b) == header_lines(listed.take(i as int)),
        decreases pairs@.len() - i,
    {
        let (name, value) = pairs[i];
        proof {
            assert(listed.take(i + 1).drop_last() =~= listed.take(i as int));
            assert(listed.take(i + 1).last() == listed[i as int]);
            lemma_header_lines_prefix(listed, i + 1);
        }
        bytes_mut_put(&mut b, name);
        bytes_mut_put(&mut b, colon_space.as_slice());
        bytes_mut_put(&mut b, value);
        bytes_mut_put(&mut b, crlf.as_slice());
        i = i + 1;
        assert(crate::outside::bytes_mut_contents(b) =~= header_lines(listed.take(i as int)));
    }
    assert(listed.take(i as int) =~= listed);
    bytes_mut_put(&mut b, crlf.as_slice());
    let res = bytes_mut_freeze(b);
    assert(bytes_contents(res) =~= header_block(listed));
    res
}

/// Where the serializer stands, as a mathematical value.
pub enum SerializerPhase {
    /// Waiting for a fresh part.
    Waiting,
    /// The boundary of a part has been sent; its headers are next, a line for
    /// each of its items in turn.
    SendHeaders(PartView),
    /// The headers of a part have been sent; its body is next.
    SendBody(Seq<u8>),
}

/// Where the serializer stands.
enum State {
    Waiting,
    SendHeaders(Part),
    SendBody(Bytes),
}

impl View for State {
    type V = SerializerPhase;

    closed spec fn view(&self) -> SerializerPhase {
        match *self {
            State::Waiting => SerializerPhase::Waiting,
            State::SendHeaders(p) => SerializerPhase::SendHeaders(p@),
            State::SendBody(b) => SerializerPhase::SendBody(bytes_contents(b)),
        }
    }
}

/// A serializer of parts into a multipart stream, constructed via [`serialize`].
pub struct Serializer {
    boundary: Bytes,
    state: State,
}

impl Serializer {
    /// The boundary line sent before each part.
    pub closed spec fn boundary_line(&self) -> Seq<u8> {
        bytes_contents(self.boundary)
    }

    /// Where the serializer stands.
    pub closed spec fn phase(&self) -> SerializerPhase {
        self.state@
    }

    /// Starts sending `part`: sets its `Content-Length` header to the length of
    /// its body (where a `Content-Length` header stood, or after the others)
    /// and returns the boundary line, the first chunk to send. The part's
    /// headers and body follow from [`Serializer::next_chunk`].
    pub fn start_part(&mut self, part: Part) -> (res: Bytes)
        requires
            old(self).phase() is Waiting,
            header_map_contents(part.headers).dom().finite(),
            header_map_contents(part.headers).dom().len() < 6554,
            header_block_fits(with_content_length(header_map_contents(part.headers), bytes_contents(part.body).len())),
        ensures
            bytes_contents(res) == old(self).boundary_line(),
            final(self).boundary_line() == old(self).boundary_line(),
            final(self).phase() == SerializerPhase::SendHeaders(PartView {
                headers: with_content_length(header_map_contents(part.headers), bytes_contents(part.body).len()),
                items: items_insert(header_map_items(part.headers), content_length_name(), decimal(bytes_contents(part.body).len())),
                body: bytes_contents(part.body),
            }),
    {
        let mut part = part;
        let len = bytes_as_slice(&part.body).len();
        header_map_insert(&mut part.headers, content_length_header(), header_value_from_usize(len));
        self.state = State::SendHeaders(part);
        self.boundary.clone()
    }

    /// What the serializer does with what its input gives while it waits for a
    /// part: the end of the input ends the output (`None`), an input error is
    /// passed on, and a part is started ([`Serializer::start_part`]).
    pub fn accept<E>(&mut self, item: Option<Result<Part, E>>) -> (res: Option<Result<Bytes, E>>)
        requires
            old(self).phase() is Waiting,
            item matches Some(Ok(p)) ==> {
                &&& header_map_contents(p.headers).dom().finite()
                &&& header_map_contents(p.headers).dom().len() < 6554
                &&& header_block_fits(with_content_length(header_map_contents(p.headers), bytes_contents(p.body).len()))
            },
        ensures
            final(self).boundary_line() == old(self).boundary_line(),
            item is None ==> res is None && final(self).phase() is Waiting,
            item matches Some(Err(e)) ==> res == Some(Err::<Bytes, E>(e)) && final(self).phase() is Waiting,
            item matches Some(Ok(p)) ==> {
                &&& res matches Some(Ok(chunk)) && bytes_contents(chunk) == old(self).boundary_line()
                &&& final(self).phase() == SerializerPhase::SendHeaders(PartView {
                    headers: with_content_length(header_map_contents(p.headers), bytes_contents(p.body).len()),
                    items: items_insert(header_map_items(p.headers), content_length_name(), decimal(bytes_contents(p.body).len())),
                    body: bytes_contents(p.body),
                })
            },
    {
        match item {
            None => None,
            Some(Err(e)) => Some(Err(e)),
            Some(Ok(p)) => Some(Ok(self.start_part(p))),
        }
    }

    /// The next chunk of the part being sent, if any: its header block (a line
    /// for each header, then an empty line) after its boundary, its body after
    /// its headers. When the serializer is waiting for a part there is none.
    pub fn next_chunk(&mut self) -> (res: Option<Bytes>)
        requires
            old(self).phase() matches SerializerPhase::SendHeaders(part) ==> header_block_fits(part.headers),
        ensures
            final(self).boundary_line() == old(self).boundary_line(),
            old(self).phase() is Waiting ==> res is None && final(self).phase() is Waiting,
            old(self).phase() matches SerializerPhase::SendHeaders(part) ==> {
                &&& final(self).phase() == SerializerPhase::SendBody(part.body)
                &&& lists_headers(part.items, part.headers)
                &&& grouped(part.items)
                &&& res matches Some(chunk) && bytes_contents(chunk) == header_block(part.items)
            },
            old(self).phase() matches SerializerPhase::SendBody(body) ==> {
                &&& final(self).phase() is Waiting
                &&& res matches Some(chunk) && bytes_contents(chunk) == body
            },
    {
        let mut st = State::Waiting;
        std::mem::swap(&mut st, &mut self.state);
        match st {
            State::Waiting => None,
            State::SendHeaders(part) => {
                self.state = State::SendBody(part.body);
                Some(serialize_headers(part.headers))
            },
            State::SendBody(body) => Some(body),
        }
    }
}

/// A serializer for a stream whose parts are separated by `boundary`, as in the
/// `boundary` parameter of the `Content-Type` header. It sets the
/// `Content-Length` header on each part rather than expecting the caller to.
pub fn serialize(boundary: &str) -> (res: Serializer)
    requires
        boundary.spec_bytes().len() + 4 <= isize::MAX,
    ensures
        res.boundary_line() == serializer_boundary_line(boundary.spec_bytes()),
        res.boundary_line() == seq![45u8, 45u8] + boundary.spec_bytes() + seq![13u8, 10u8],
        res.phase() is Waiting,
{
    let b = boundary.as_bytes();
    let dashes: Vec<u8> = vec![45u8, 45u8];
    let crlf: Vec<u8> = vec![13u8, 10u8];
    let mut line = bytes_mut_with_capacity(b.len() + 4);
    bytes_mut_put(&mut line, dashes.as_slice());
    bytes_mut_put(&mut line, b);
    bytes_mut_put(&mut line, crlf.as_slice());
    let boundary = bytes_mut_freeze(line);
    assert(bytes_contents(boundary) =~= serializer_boundary_line(b@));
    proof {
        crate::laws::lemma_boundary_line_bytes(b@);
    }
    Serializer { boundary, state: State::Waiting }
}

} // verus!
