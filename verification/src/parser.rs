//! Parses a byte stream into parts.
//!
//! [`Parser`] holds the bytes received so far and the position within the
//! current part. The caller feeds it chunks ([`Parser::push_chunk`]), asks it
//! for the next part ([`Parser::poll_part`]) and tells it when the input has
//! ended or failed.

use vstd::prelude::*;
use vstd::string::{StringExecFns, StringSliceAdditionalSpecFns};
use bytes::BytesMut;
use http::header::HeaderMap;
use crate::{Part, PartView};
use crate::outside::{
    bytes_mut_advance, bytes_mut_as_slice, bytes_mut_contents, bytes_mut_extend,
    bytes_mut_freeze, bytes_mut_new, bytes_mut_split_to, content_length_header,
    header_map_append, header_map_contents, header_map_get, header_map_items, header_map_with_capacity,
    header_name_from_bytes, header_value_from_bytes, header_value_to_str, httparse_headers,
    memmem_find, parse_headers, slice_pairs,
};
use crate::wire::{
    content_length_name, dashes, decimal, first_occurrence, headers_append, items_of_pairs,
    header_name_canonical, is_header_name, is_header_value, is_visible_ascii, no_headers,
    parser_boundary_line, starts_with, usize_from_decimal, HeadersView, ParsedHeaders,
};

verus! {

/// The largest number of headers a part may have.
pub const MAX_HEADERS: usize = 16;

/// Why parsing failed, as a mathematical value.
pub enum Failure {
    /// The bytes after the newlines between parts are not the boundary.
    BadBoundary,
    /// The part's header block is not valid; `reason` says why.
    HeadersInvalid { reason: Seq<char> },
    /// A header name is not valid.
    BadHeaderName,
    /// A header value is not valid.
    BadHeaderValue,
    /// The `Content-Length` value is not visible ASCII.
    ContentLengthNotString,
    /// The `Content-Length` value is not a `usize`.
    ContentLengthNotUsize,
    /// The body length exceeds the maximum.
    BodyTooLarge { body_len: nat, max: nat },
    /// An incomplete header block has reached the maximum length.
    HeadersTooLarge { len: nat, max: nat },
    /// The input ended in the middle of a part.
    MidPartEof,
    /// Reading the input failed.
    Underlying,
}

/// Why parsing failed.
#[derive(Debug)]
pub enum ErrorKind {
    /// The bytes after the newlines between parts are not the boundary.
    BadBoundary,
    /// The part's header block is not valid; `reason` is what `httparse` says.
    HeadersInvalid { reason: String },
    /// A header name is not valid.
    BadHeaderName,
    /// A header value is not valid.
    BadHeaderValue,
    /// The `Content-Length` value is not visible ASCII.
    ContentLengthNotString,
    /// The `Content-Length` value is not a `usize`.
    ContentLengthNotUsize,
    /// The body length exceeds the maximum.
    BodyTooLarge { body_len: usize, max: usize },
    /// An incomplete header block has reached the maximum length.
    HeadersTooLarge { len: usize, max: usize },
    /// The input ended in the middle of a part.
    MidPartEof,
    /// Reading the input failed.
    Underlying,
}

/// The [`Failure`] that an [`ErrorKind`] stands for.
pub open spec fn kind_failure(kind: ErrorKind) -> Failure {
    match kind {
        ErrorKind::BadBoundary => Failure::BadBoundary,
        ErrorKind::HeadersInvalid { reason } => Failure::HeadersInvalid { reason: reason@ },
        ErrorKind::BadHeaderName => Failure::BadHeaderName,
        ErrorKind::BadHeaderValue => Failure::BadHeaderValue,
        ErrorKind::ContentLengthNotString => Failure::ContentLengthNotString,
        ErrorKind::ContentLengthNotUsize => Failure::ContentLengthNotUsize,
        ErrorKind::BodyTooLarge { body_len, max } => Failure::BodyTooLarge { body_len: body_len as nat, max: max as nat },
        ErrorKind::HeadersTooLarge { len, max } => Failure::HeadersTooLarge { len: len as nat, max: max as nat },
        ErrorKind::MidPartEof => Failure::MidPartEof,
        ErrorKind::Underlying => Failure::Underlying,
    }
}

/// An error when reading from the underlying stream or parsing.
#[derive(Debug)]
pub struct Error {
    kind: ErrorKind,
}

impl View for Error {
    type V = Failure;

    closed spec fn view(&self) -> Failure {
        kind_failure(self.kind)
    }
}

impl Error {
    fn new(kind: ErrorKind) -> (res: Error)
        ensures
            res@ == kind_failure(kind),
    {
        Error { kind }
    }

    /// Why parsing failed.
    pub fn kind(&self) -> (res: &ErrorKind)
        ensures
            kind_failure(*res) == self@,
    {
        &self.kind
    }

    /// The message that describes the error.
    pub fn message(&self) -> (res: String)
        ensures
            res@ == failure_message(self@),
    {
        match &self.kind {
            ErrorKind::BadBoundary => String::from_str("bad boundary"),
            ErrorKind::HeadersInvalid { reason } => {
                let mut s = String::from_str("Part headers invalid: ");
                s.append(reason.as_str());
                s
            },
            ErrorKind::BadHeaderName => String::from_str("bad header name"),
            ErrorKind::BadHeaderValue => String::from_str("bad header value"),
            ErrorKind::ContentLengthNotString => String::from_str("Part Content-Length is not valid string"),
            ErrorKind::ContentLengthNotUsize => String::from_str("Part Content-Length is not valid usize"),
            ErrorKind::BodyTooLarge { body_len, max } => {
                let mut s = String::from_str("body byte length ");
                let a = decimal_string(*body_len);
                s.append(a.as_str());
                s.append(" exceeds maximum of ");
                let b = decimal_string(*max);
                s.append(b.as_str());
                s
            },
            ErrorKind::HeadersTooLarge { len, max } => {
                let mut s = String::from_str("incomplete ");
                let a = decimal_string(*len);
                s.append(a.as_str());
                s.append("-byte header, vs maximum of ");
                let b = decimal_string(*max);
                s.append(b.as_str());
                s.append(" bytes");
                s
            },
            ErrorKind::MidPartEof => String::from_str("unexpected mid-part EOF"),
            ErrorKind::Underlying => String::from_str("underlying stream failed"),
        }
    }
}

/// The decimal representation of `n`, as text.
pub open spec fn decimal_text(n: nat) -> Seq<char> {
    decimal(n).map_values(|b: u8| b as char)
}

/// The message that describes a failure.
pub open spec fn failure_message(f: Failure) -> Seq<char> {
    match f {
        Failure::BadBoundary => "bad boundary"@,
        Failure::HeadersInvalid { reason } => "Part headers invalid: "@ + reason,
        Failure::BadHeaderName => "bad header name"@,
        Failure::BadHeaderValue => "bad header value"@,
        Failure::ContentLengthNotString => "Part Content-Length is not valid string"@,
        Failure::ContentLengthNotUsize => "Part Content-Length is not valid usize"@,
        Failure::BodyTooLarge { body_len, max } =>
            "body byte length "@ + decimal_text(body_len) + " exceeds maximum of "@ + decimal_text(max),
        Failure::HeadersTooLarge { len, max } =>
            "incomplete "@ + decimal_text(len) + "-byte header, vs maximum of "@ + decimal_text(max) + " bytes"@,
        Failure::MidPartEof => "unexpected mid-part EOF"@,
        Failure::Underlying => "underlying stream failed"@,
    }
}

/// The text of the decimal digit `d`.
fn digit_text(d: usize) -> (res: &'static str)
    requires
        d < 10,
    ensures
        res@ == seq![(48 + d) as char],
{
    if d == 0 {
        proof { reveal_strlit("0"); }
        "0"
    } else if d == 1 {
        proof { reveal_strlit("1"); }
        "1"
    } else if d == 2 {
        proof { reveal_strlit("2"); }
        "2"
    } else if d == 3 {
        proof { reveal_strlit("3"); }
        "3"
    } else if d == 4 {
        proof { reveal_strlit("4"); }
        "4"
    } else if d == 5 {
        proof { reveal_strlit("5"); }
        "5"
    } else if d == 6 {
        proof { reveal_strlit("6"); }
        "6"
    } else if d == 7 {
        proof { reveal_strlit("7"); }
        "7"
    } else if d == 8 {
        proof { reveal_strlit("8"); }
        "8"
    } else {
        proof { reveal_strlit("9"); }
        "9"
    }
}

/// The decimal representation of `n`, as text.
fn decimal_string(n: usize) -> (res: String)
    ensures
        res@ == decimal_text(n as nat),
    decreases n,
{
    if n < 10 {
        let res = String::from_str(digit_text(n));
        assert(res@ =~= decimal_text(n as nat));
        res
    } else {
        let mut res = decimal_string(n / 10);
        res.append(digit_text(n % 10));
        assert(decimal(n as nat) == decimal((n / 10) as nat).push((48 + n % 10) as u8));
        assert(res@ =~= decimal_text(n as nat));
        res
    }
}

/// Where the parser stands, as a mathematical value.
pub enum Phase {
    /// Consuming `\r\n` pairs before a boundary.
    Newlines,
    /// Matching the boundary line; `pos` bytes of it have been matched.
    Boundary { pos: nat },
    /// Waiting for a complete header block.
    Headers,
    /// Waiting for a body: of `body_len` bytes when the headers declare a
    /// length, else running up to the next boundary line. `items` lists the
    /// headers in the order the part's map yields them.
    Body { headers: HeadersView, items: Seq<(Seq<u8>, Seq<u8>)>, body_len: Option<nat> },
    /// The stream is finished.
    Done,
}

/// Where the parser stands.
enum State {
    Newlines,
    Boundary { pos: usize },
    Headers,
    Body { headers: HeaderMap, body_len: Option<usize> },
    Done,
}

impl View for State {
    type V = Phase;

    closed spec fn view(&self) -> Phase {
        match *self {
            State::Newlines => Phase::Newlines,
            State::Boundary { pos } => Phase::Boundary { pos: pos as nat },
            State::Headers => Phase::Headers,
            State::Body { headers, body_len } => Phase::Body {
                headers: header_map_contents(headers),
                items: header_map_items(headers),
                body_len: opt_nat(body_len),
            },
            State::Done => Phase::Done,
        }
    }
}

/// A length, if any, as a mathematical value.
pub open spec fn opt_nat(len: Option<usize>) -> Option<nat> {
    match len {
        Some(n) => Some(n as nat),
        None => None,
    }
}

/// Whether `phase` fits a boundary line of `boundary_len` bytes.
pub open spec fn phase_wf(phase: Phase, boundary_len: nat) -> bool {
    match phase {
        Phase::Boundary { pos } => pos < boundary_len,
        _ => true,
    }
}

/// What one call of the parser gives, as a mathematical value.
pub enum Emit {
    /// More input is needed.
    Pending,
    /// A complete part.
    Part(PartView),
    /// The stream is finished.
    Finished,
    /// Parsing failed.
    Failed(Failure),
}

/// One step of the parser: either it goes on with a new phase and buffer, or it
/// stops with a new phase, buffer and something to report.
pub enum Step {
    Continue(Phase, Seq<u8>),
    Stop(Phase, Seq<u8>, Emit),
}

/// The headers that a list of (name, value) pairs from a header block makes:
/// names and values are checked in order, the first invalid one is reported.
pub open spec fn headers_from_pairs(pairs: Seq<(Seq<u8>, Seq<u8>)>) -> Result<HeadersView, Failure>
    decreases pairs.len(),
{
    if pairs.len() == 0 {
        Ok(no_headers())
    } else {
        match headers_from_pairs(pairs.drop_last()) {
            Err(f) => Err(f),
            Ok(headers) => {
                let (name, value) = pairs.last();
                if !is_header_name(name) {
                    Err(Failure::BadHeaderName)
                } else if !is_header_value(value) {
                    Err(Failure::BadHeaderValue)
                } else {
                    Ok(headers_append(headers, header_name_canonical(name), value))
                }
            }
        }
    }
}

/// The body length that a part's headers declare in their first
/// `Content-Length` header (`None` when there is no such header).
pub open spec fn declared_body_len(headers: HeadersView) -> Result<Option<nat>, Failure> {
    if !headers.contains_key(content_length_name()) {
        Ok(None)
    } else {
        let value = headers[content_length_name()][0];
        if !is_visible_ascii(value) {
            Err(Failure::ContentLengthNotString)
        } else {
            match usize_from_decimal(value) {
                Some(n) => Ok(Some(n as nat)),
                None => Err(Failure::ContentLengthNotUsize),
            }
        }
    }
}

/// What the parser does with an incomplete header block in `buf`: it waits for
/// more input, unless the block has reached the limit.
pub open spec fn incomplete_headers(buf: Seq<u8>, max_header_bytes: nat) -> Step {
    if buf.len() >= max_header_bytes {
        Step::Stop(Phase::Headers, buf, Emit::Failed(Failure::HeadersTooLarge { len: buf.len(), max: max_header_bytes }))
    } else {
        Step::Stop(Phase::Headers, buf, Emit::Pending)
    }
}

/// One step of the parser in `phase`, with `buf` buffered.
pub open spec fn step(phase: Phase, boundary: Seq<u8>, buf: Seq<u8>, max_header_bytes: nat, max_body_bytes: nat) -> Step {
    match phase {
        Phase::Newlines => {
            if buf.len() >= 2 {
                if buf[0] == 13 && buf[1] == 10 {
                    Step::Continue(Phase::Newlines, buf.skip(2))
                } else {
                    Step::Continue(Phase::Boundary { pos: 0 }, buf)
                }
            } else if buf.len() == 1 && buf[0] != 13 {
                Step::Continue(Phase::Boundary { pos: 0 }, buf)
            } else {
                Step::Stop(Phase::Newlines, buf, Emit::Pending)
            }
        },
        Phase::Boundary { pos } => {
            let n: int = if boundary.len() - pos < buf.len() { boundary.len() - pos } else { buf.len() as int };
            if buf.take(n) != boundary.subrange(pos as int, pos + n) {
                Step::Stop(phase, buf, Emit::Failed(Failure::BadBoundary))
            } else if pos + n < boundary.len() {
                Step::Stop(Phase::Boundary { pos: (pos + n) as nat }, buf.skip(n), Emit::Pending)
            } else {
                Step::Continue(Phase::Headers, buf.skip(n))
            }
        },
        Phase::Headers => match httparse_headers(buf, MAX_HEADERS as nat) {
            ParsedHeaders::Invalid { reason } => Step::Stop(Phase::Headers, buf, Emit::Failed(Failure::HeadersInvalid { reason })),
            ParsedHeaders::Partial => incomplete_headers(buf, max_header_bytes),
            // `httparse` reports a complete block within the bytes it is given
            // (see `parse_headers`); one past their end would count as incomplete.
            ParsedHeaders::Complete { len, pairs } => if len > buf.len() {
                incomplete_headers(buf, max_header_bytes)
            } else {
                match headers_from_pairs(pairs) {
                    Err(f) => Step::Stop(Phase::Headers, buf, Emit::Failed(f)),
                    Ok(headers) => {
                        let rest = buf.skip(len as int);
                        match declared_body_len(headers) {
                            Err(f) => Step::Stop(Phase::Headers, rest, Emit::Failed(f)),
                            Ok(body_len) => {
                                if body_len is Some && body_len->0 > max_body_bytes {
                                    Step::Stop(
                                        Phase::Headers,
                                        rest,
                                        Emit::Failed(Failure::BodyTooLarge { body_len: body_len->0, max: max_body_bytes }),
                                    )
                                } else {
                                    Step::Continue(Phase::Body { headers, items: items_of_pairs(pairs), body_len }, rest)
                                }
                            },
                        }
                    },
                }
            },
        },
        Phase::Body { headers, items, body_len } => match body_len {
            Some(len) => {
                if buf.len() >= len {
                    Step::Stop(Phase::Newlines, buf.skip(len as int), Emit::Part(PartView { headers, items, body: buf.take(len as int) }))
                } else {
                    Step::Stop(phase, buf, Emit::Pending)
                }
            },
            // A boundary line right after the header block ends no body: the
            // parser goes on waiting.
            None => match first_occurrence(buf, boundary) {
                Some(len) => {
                    if len == 0 {
                        Step::Stop(phase, buf, Emit::Pending)
                    } else if len > max_body_bytes {
                        Step::Stop(phase, buf, Emit::Failed(Failure::BodyTooLarge { body_len: len, max: max_body_bytes }))
                    } else {
                        Step::Stop(Phase::Newlines, buf.skip(len as int), Emit::Part(PartView { headers, items, body: buf.take(len as int) }))
                    }
                },
                None => Step::Stop(phase, buf, Emit::Pending),
            },
        },
        Phase::Done => Step::Stop(Phase::Done, buf, Emit::Finished),
    }
}

/// The order in which phases follow each other within one call.
pub open spec fn rank(phase: Phase) -> nat {
    match phase {
        Phase::Newlines => 3,
        Phase::Boundary { .. } => 2,
        Phase::Headers => 1,
        _ => 0,
    }
}

/// Whether going from (`phase`, `buf`) to (`next`, `next_buf`) makes progress:
/// fewer bytes buffered, or as many and a later phase. Every continuing step
/// does, since a complete header block lies within the buffer.
pub open spec fn progresses(phase: Phase, buf: Seq<u8>, next: Phase, next_buf: Seq<u8>) -> bool {
    next_buf.len() < buf.len() || (next_buf.len() == buf.len() && rank(next) < rank(phase))
}

/// What one call of the parser does: steps until a step stops, giving the
/// final phase, the bytes left buffered and what it reports.
pub open spec fn run(phase: Phase, boundary: Seq<u8>, buf: Seq<u8>, max_header_bytes: nat, max_body_bytes: nat) -> (Phase, Seq<u8>, Emit)
    decreases buf.len(), rank(phase),
{
    match step(phase, boundary, buf, max_header_bytes, max_body_bytes) {
        Step::Stop(next, next_buf, emit) => (next, next_buf, emit),
        Step::Continue(next, next_buf) => {
            if progresses(phase, buf, next, next_buf) {
                run(next, boundary, next_buf, max_header_bytes, max_body_bytes)
            } else {
                (next, next_buf, Emit::Pending)
            }
        },
    }
}

} // verus!

verus! {

/// Whether the first `len` bytes of `a` equal the `len` bytes of `b` from `b_start`.
fn bytes_equal(a: &[u8], b: &[u8], b_start: usize, len: usize) -> (res: bool)
    requires
        len <= a@.len(),
        b_start + len <= b.len(),
    ensures
        res == (a@.take(len as int) == b@.subrange(b_start as int, b_start + len)),
{
    let mut i: usize = 0;
    while i < len
        invariant
            i <= len,
            len <= a@.len(),
            b_start + len <= b.len(),
            forall|j: int| 0 <= j < i ==> a@[j] == b@[b_start + j],
        decreases len - i,
    {
        if a[i] != b[b_start + i] {
            assert(a@.take(len as int)[i as int] != b@.subrange(b_start as int, b_start + len)[i as int]);
            return false;
        }
        i = i + 1;
    }
    assert(a@.take(len as int) =~= b@.subrange(b_start as int, b_start + len));
    true
}

/// A prefix of a run of digits denotes no more than the whole run.
proof fn lemma_digits_value_prefix(s: Seq<u8>, k: int)
    requires
        0 <= k <= s.len(),
    ensures
        crate::wire::digits_value(s.take(k)) <= crate::wire::digits_value(s),
    decreases s.len(),
{
    if k < s.len() {
        lemma_digits_value_prefix(s.drop_last(), k);
        assert(s.drop_last().take(k) =~= s.take(k));
    } else {
        assert(s.take(k) =~= s);
    }
}

/// `s` read as a `usize` (as `str::parse::<usize>` reads it).
#[verifier::loop_isolation(false)]
fn parse_usize(s: &[u8]) -> (res: Option<usize>)
    ensures
        res == usize_from_decimal(s@),
{
    let start: usize = if s.len() > 0 && s[0] == 43 { 1 } else { 0 };
    let ghost digits = if s@.len() > 0 && s@[0] == 43 { s@.skip(1) } else { s@ };
    assert(digits =~= s@.skip(start as int));
    if start >= s.len() {
        assert(digits.len() == 0);
        return None;
    }
    let mut value: usize = 0;
    let mut i: usize = start;
    while i < s.len()
        invariant
            start <= i <= s@.len(),
            start < s@.len(),
            digits == s@.skip(start as int),
            value as nat == crate::wire::digits_value(digits.take(i - start)),
            forall|j: int| 0 <= j < i - start ==> crate::wire::is_digit(#[trigger] digits[j]),
        decreases s@.len() - i,
    {
        let c = s[i];
        let ghost k: int = i - start;
        assert(digits[k] == c);
        if c < 48 || c > 57 {
            assert(!crate::wire::is_digit(digits[k]));
            assert(!crate::wire::is_digits(digits));
            return None;
        }
        assert(digits.take(k + 1).drop_last() =~= digits.take(k));
        assert(crate::wire::digits_value(digits.take(k + 1)) == crate::wire::digits_value(digits.take(k)) * 10 + (c - 48) as nat);
        let next = match value.checked_mul(10) {
            Some(v) => v.checked_add((c - 48) as usize),
            None => None,
        };
        match next {
            Some(v) => {
                value = v;
            },
            None => {
                proof {
                    lemma_digits_value_prefix(digits, k + 1);
                }
                return None;
            },
        }
        i = i + 1;
    }
    assert(digits.take(i - start) =~= digits);
    Some(value)
}

/// The body length that `headers` declare, if any (as `declared_body_len` says).
fn content_length_of(headers: &HeaderMap) -> (res: Result<Option<usize>, Error>)
    ensures
        match declared_body_len(header_map_contents(*headers)) {
            Ok(n) => res matches Ok(m) && opt_nat(m) == n,
            Err(f) => res matches Err(e) && e@ == f,
        },
{
    let name = content_length_header();
    let value = match header_map_get(headers, &name) {
        Some(v) => v,
        None => return Ok(None),
    };
    let text = match header_value_to_str(value) {
        Ok(t) => t,
        Err(_) => return Err(Error::new(ErrorKind::ContentLengthNotString)),
    };
    match parse_usize(text.as_bytes()) {
        Some(n) => Ok(Some(n)),
        None => Err(Error::new(ErrorKind::ContentLengthNotUsize)),
    }
}

/// The headers of a part, from the (name, value) pairs of its header block:
/// each name and value is checked in order, and the first invalid one is
/// reported; the valid ones are added in order, names in canonical form.
pub fn headers_from_raw(raw: &[(&[u8], &[u8])]) -> (res: Result<HeaderMap, Error>)
    requires
        raw@.len() < 6554,
    ensures
        match headers_from_pairs(slice_pairs(raw@)) {
            Ok(headers) => res matches Ok(m) && header_map_contents(m) == headers
                && header_map_items(m) == items_of_pairs(slice_pairs(raw@)),
            Err(f) => res matches Err(e) && e@ == f,
        },
{
    let ghost pairs = slice_pairs(raw@);
    let mut headers = header_map_with_capacity(raw.len());
    let mut i: usize = 0;
    while i < raw.len()
        invariant
            i <= raw@.len(),
            raw@.len() < 6554,
            pairs == slice_pairs(raw@),
            headers_from_pairs(pairs.take(i as int)) == Ok::<HeadersView, Failure>(header_map_contents(headers)),
            header_map_items(headers) == items_of_pairs(pairs.take(i as int)),
            header_map_contents(headers).dom().finite(),
            header_map_contents(headers).dom().len() <= i,
        decreases raw@.len() - i,
    {
        let (name, value) = raw[i];
        assert(pairs.take(i + 1).drop_last() =~= pairs.take(i as int));
        assert(pairs.take(i + 1).last() == pairs[i as int]);
        let name = match header_name_from_bytes(name) {
            Ok(n) => n,
            Err(_) => {
                assert(headers_from_pairs(pairs.take(i + 1)) == Err::<HeadersView, Failure>(Failure::BadHeaderName));
                proof {
                    lemma_headers_from_pairs_fails_early(pairs, i + 1);
                }
                return Err(Error::new(ErrorKind::BadHeaderName));
            },
        };
        let value = match header_value_from_bytes(value) {
            Ok(v) => v,
            Err(_) => {
                assert(headers_from_pairs(pairs.take(i + 1)) == Err::<HeadersView, Failure>(Failure::BadHeaderValue));
                proof {
                    lemma_headers_from_pairs_fails_early(pairs, i + 1);
                }
                return Err(Error::new(ErrorKind::BadHeaderValue));
            },
        };
        header_map_append(&mut headers, name, value);
        i = i + 1;
    }
    assert(pairs.take(i as int) =~= pairs);
    Ok(headers)
}

/// The body length that a part's headers declare, if any, refused when it
/// exceeds `max_body_bytes`.
pub fn body_len_within(headers: &HeaderMap, max_body_bytes: usize) -> (res: Result<Option<usize>, Error>)
    ensures
        match declared_body_len(header_map_contents(*headers)) {
            Ok(n) => if n is Some && n->0 > max_body_bytes {
                res matches Err(e) && e@ == (Failure::BodyTooLarge { body_len: n->0, max: max_body_bytes as nat })
            } else {
                res matches Ok(m) && opt_nat(m) == n
            },
            Err(f) => res matches Err(e) && e@ == f,
        },
{
    let body_len = content_length_of(headers)?;
    match body_len {
        Some(n) => {
            if n > max_body_bytes {
                return Err(Error::new(ErrorKind::BodyTooLarge { body_len: n, max: max_body_bytes }));
            }
        },
        None => {},
    }
    Ok(body_len)
}

/// What one call of [`State::process`] reports.
enum Processed {
    Pending,
    Part(Part),
    Finished,
}

/// Whether `res` reports `emit`.
spec fn reports(res: Result<Processed, Error>, emit: Emit) -> bool {
    match emit {
        Emit::Pending => res matches Ok(Processed::Pending),
        Emit::Part(p) => res matches Ok(Processed::Part(q)) && q@ == p,
        Emit::Finished => res matches Ok(Processed::Finished),
        Emit::Failed(f) => res matches Err(e) && e@ == f,
    }
}

impl State {
    /// Processes the buffered bytes: steps until a part is complete, more input
    /// is needed, the stream is finished, or parsing fails.
    #[verifier::loop_isolation(false)]
    fn process(
        &mut self,
        boundary: &[u8],
        buf: &mut BytesMut,
        max_header_bytes: usize,
        max_body_bytes: usize,
    ) -> (res: Result<Processed, Error>)
        requires
            phase_wf(old(self)@, boundary@.len()),
            boundary@.len() >= 1,
        ensures
            phase_wf(final(self)@, boundary@.len()),
            ({
                let (phase, rest, emit) = run(
                    old(self)@,
                    boundary@,
                    bytes_mut_contents(*old(buf)),
                    max_header_bytes as nat,
                    max_body_bytes as nat,
                );
                &&& final(self)@ == phase
                &&& bytes_mut_contents(*final(buf)) == rest
                &&& reports(res, emit)
            }),
    {
        let ghost target = run(old(self)@, boundary@, bytes_mut_contents(*buf), max_header_bytes as nat, max_body_bytes as nat);
        let mut st = State::Done;
        std::mem::swap(&mut st, self);
        loop
            invariant
                phase_wf(st@, boundary@.len()),
                boundary@.len() >= 1,
                run(st@, boundary@, bytes_mut_contents(*buf), max_header_bytes as nat, max_body_bytes as nat) == target,
            decreases bytes_mut_contents(*buf).len(), rank(st@),
        {
            let ghost phase = st@;
            let ghost before = bytes_mut_contents(*buf);
            match st {
                State::Newlines => {
                    let s = bytes_mut_as_slice(buf);
                    if s.len() >= 2 {
                        if s[0] == 13 && s[1] == 10 {
                            bytes_mut_advance(buf, 2);
                            st = State::Newlines;
                        } else {
                            st = State::Boundary { pos: 0 };
                        }
                    } else if s.len() == 1 && s[0] != 13 {
                        st = State::Boundary { pos: 0 };
                    } else {
                        *self = State::Newlines;
                        return Ok(Processed::Pending);
                    }
                },
                State::Boundary { pos } => {
                    let s = bytes_mut_as_slice(buf);
                    let remaining = boundary.len() - pos;
                    let len = if remaining < s.len() { remaining } else { s.len() };
                    if !bytes_equal(s, boundary, pos, len) {
                        *self = State::Boundary { pos };
                        return Err(Error::new(ErrorKind::BadBoundary));
                    }
                    bytes_mut_advance(buf, len);
                    let pos = pos + len;
                    if pos < boundary.len() {
                        *self = State::Boundary { pos };
                        return Ok(Processed::Pending);
                    }
                    st = State::Headers;
                },
                State::Headers => {
                    let s = bytes_mut_as_slice(buf);
                    match parse_headers(s, MAX_HEADERS) {
                        Err(reason) => {
                            *self = State::Headers;
                            return Err(Error::new(ErrorKind::HeadersInvalid { reason }));
                        },
                        Ok(None) => {
                            if s.len() >= max_header_bytes {
                                *self = State::Headers;
                                return Err(Error::new(ErrorKind::HeadersTooLarge { len: s.len(), max: max_header_bytes }));
                            }
                            *self = State::Headers;
                            return Ok(Processed::Pending);
                        },
                        Ok(Some((body_pos, raw))) => {
                            let headers = match headers_from_raw(raw.as_slice()) {
                                Ok(h) => h,
                                Err(e) => {
                                    *self = State::Headers;
                                    return Err(e);
                                },
                            };
                            bytes_mut_advance(buf, body_pos);
                            let body_len = match body_len_within(&headers, max_body_bytes) {
                                Ok(n) => n,
                                Err(e) => {
                                    *self = State::Headers;
                                    return Err(e);
                                },
                            };
                            st = State::Body { headers, body_len };
                        },
                    }
                },
                State::Body { headers, body_len: Some(len) } => {
                    if bytes_mut_as_slice(buf).len() >= len {
                        let body = bytes_mut_freeze(bytes_mut_split_to(buf, len));
                        *self = State::Newlines;
                        return Ok(Processed::Part(Part { headers, body }));
                    }
                    *self = State::Body { headers, body_len: Some(len) };
                    return Ok(Processed::Pending);
                },
                State::Body { headers, body_len: None } => {
                    let s = bytes_mut_as_slice(buf);
                    match memmem_find(s, boundary) {
                        Some(len) => {
                            proof {
                                crate::wire::lemma_first_occurrence_occurs(s@, boundary@, 0);
                            }
                            if len == 0 {
                                *self = State::Body { headers, body_len: None };
                                return Ok(Processed::Pending);
                            }
                            if len > max_body_bytes {
                                *self = State::Body { headers, body_len: None };
                                return Err(Error::new(ErrorKind::BodyTooLarge { body_len: len, max: max_body_bytes }));
                            }
                            let body = bytes_mut_freeze(bytes_mut_split_to(buf, len));
                            *self = State::Newlines;
                            return Ok(Processed::Part(Part { headers, body }));
                        },
                        None => {
                            *self = State::Body { headers, body_len: None };
                            return Ok(Processed::Pending);
                        },
                    }
                },
                State::Done => {
                    *self = State::Done;
                    return Ok(Processed::Finished);
                },
            }
            assert(progresses(phase, before, st@, bytes_mut_contents(*buf)));
        }
    }
}

/// Once a prefix of the pairs makes a failure, so do all the pairs.
proof fn lemma_headers_from_pairs_fails_early(pairs: Seq<(Seq<u8>, Seq<u8>)>, k: int)
    requires
        0 <= k <= pairs.len(),
        headers_from_pairs(pairs.take(k)) is Err,
    ensures
        headers_from_pairs(pairs) == headers_from_pairs(pairs.take(k)),
    decreases pairs.len() - k,
{
    if k < pairs.len() {
        assert(pairs.take(k + 1).drop_last() =~= pairs.take(k));
        lemma_headers_from_pairs_fails_early(pairs, k + 1);
    } else {
        assert(pairs.take(k) =~= pairs);
    }
}

} // verus!

verus! {

/// Appends the bytes of `s` to `v`.
fn push_all(v: &mut Vec<u8>, s: &[u8])
    ensures
        final(v)@ == old(v)@ + s@,
{
    let mut i: usize = 0;
    while i < s.len()
        invariant
            i <= s@.len(),
            v@ == old(v)@ + s@.take(i as int),
        decreases s@.len() - i,
    {
        v.push(s[i]);
        i = i + 1;
        assert(v@ =~= old(v)@ + s@.take(i as int));
    }
    assert(s@.take(i as int) =~= s@);
}

/// What [`Parser::poll_part`] reports.
pub enum Next {
    /// A complete part.
    Part(Part),
    /// Parsing failed; the parser is finished.
    Failed(Error),
    /// The stream is finished.
    End,
    /// More input is needed: poll the input and hand the parser what it gives.
    NeedInput,
}

/// Whether `res` reports `emit`.
pub open spec fn next_reports(res: Next, emit: Emit) -> bool {
    match emit {
        Emit::Pending => res is NeedInput,
        Emit::Part(p) => res matches Next::Part(q) && q@ == p,
        Emit::Finished => res is End,
        Emit::Failed(f) => res matches Next::Failed(e) && e@ == f,
    }
}

/// A parser of a multipart stream, constructed via [`parse`] or [`ParserBuilder`].
pub struct Parser {
    /// The boundary with `--` prefix and `\r\n` suffix.
    boundary: Vec<u8>,
    buf: BytesMut,
    state: State,
    max_header_bytes: usize,
    max_body_bytes: usize,
}

impl Parser {
    /// The boundary line this parser looks for.
    pub closed spec fn boundary_line(&self) -> Seq<u8> {
        self.boundary@
    }

    /// The bytes received and not yet consumed.
    pub closed spec fn buffered(&self) -> Seq<u8> {
        bytes_mut_contents(self.buf)
    }

    /// Where the parser stands.
    pub closed spec fn phase(&self) -> Phase {
        self.state@
    }

    /// The length at which an incomplete header block is refused.
    pub closed spec fn header_limit(&self) -> nat {
        self.max_header_bytes as nat
    }

    /// The largest body length accepted.
    pub closed spec fn body_limit(&self) -> nat {
        self.max_body_bytes as nat
    }

    /// The parser's invariant: a non-empty boundary line, and a position within it.
    pub closed spec fn wf(&self) -> bool {
        self.boundary@.len() >= 1 && phase_wf(self.state@, self.boundary@.len())
    }

    /// What happens when the parser is asked for its next part: it processes the
    /// buffered bytes as [`run`] says. On a failure the parser is finished: it
    /// reports the end of the stream from then on.
    pub fn poll_part(&mut self) -> (res: Next)
        requires
            old(self).wf(),
        ensures
            final(self).wf(),
            final(self).boundary_line() == old(self).boundary_line(),
            final(self).header_limit() == old(self).header_limit(),
            final(self).body_limit() == old(self).body_limit(),
            ({
                let (phase, rest, emit) = run(
                    old(self).phase(),
                    old(self).boundary_line(),
                    old(self).buffered(),
                    old(self).header_limit(),
                    old(self).body_limit(),
                );
                &&& final(self).buffered() == rest
                &&& final(self).phase() == (if emit is Failed { Phase::Done } else { phase })
                &&& next_reports(res, emit)
            }),
    {
        let res = self.state.process(self.boundary.as_slice(), &mut self.buf, self.max_header_bytes, self.max_body_bytes);
        match res {
            Err(e) => {
                self.state = State::Done;
                Next::Failed(e)
            },
            Ok(Processed::Part(p)) => Next::Part(p),
            Ok(Processed::Pending) => Next::NeedInput,
            Ok(Processed::Finished) => Next::End,
        }
    }

    /// The number of bytes received and not yet consumed.
    pub fn buffered_len(&self) -> (res: usize)
        ensures
            res == self.buffered().len(),
    {
        bytes_mut_as_slice(&self.buf).len()
    }

    /// Hands the parser a chunk of input: it is appended to the buffered bytes.
    pub fn push_chunk(&mut self, chunk: &[u8])
        requires
            old(self).wf(),
            old(self).buffered().len() + chunk@.len() <= isize::MAX,
        ensures
            final(self).wf(),
            final(self).buffered() == old(self).buffered() + chunk@,
            final(self).phase() == old(self).phase(),
            final(self).boundary_line() == old(self).boundary_line(),
            final(self).header_limit() == old(self).header_limit(),
            final(self).body_limit() == old(self).body_limit(),
    {
        bytes_mut_extend(&mut self.buf, chunk);
    }

    /// Tells the parser that the input has ended. Between parts that ends the
    /// stream (`None`); within a part it is an error, and the parser is finished.
    pub fn finish_input(&mut self) -> (res: Option<Error>)
        requires
            old(self).wf(),
        ensures
            final(self).wf(),
            final(self).buffered() == old(self).buffered(),
            final(self).boundary_line() == old(self).boundary_line(),
            final(self).header_limit() == old(self).header_limit(),
            final(self).body_limit() == old(self).body_limit(),
            old(self).phase() is Newlines ==> res is None && final(self).phase() == old(self).phase(),
            !(old(self).phase() is Newlines) ==> (res matches Some(e) && e@ == Failure::MidPartEof),
            !(old(self).phase() is Newlines) ==> final(self).phase() == Phase::Done,
    {
        match self.state {
            State::Newlines => None,
            _ => {
                self.state = State::Done;
                Some(Error::new(ErrorKind::MidPartEof))
            },
        }
    }

    /// Tells the parser that reading the input failed: the parser is finished,
    /// and the error to report is returned.
    pub fn fail_input(&mut self) -> (res: Error)
        requires
            old(self).wf(),
        ensures
            final(self).wf(),
            res@ == Failure::Underlying,
            final(self).phase() == Phase::Done,
            final(self).buffered() == old(self).buffered(),
            final(self).boundary_line() == old(self).boundary_line(),
            final(self).header_limit() == old(self).header_limit(),
            final(self).body_limit() == old(self).body_limit(),
    {
        self.state = State::Done;
        Error::new(ErrorKind::Underlying)
    }
}

/// Flexible builder for [`Parser`].
pub struct ParserBuilder {
    max_header_bytes: usize,
    max_body_bytes: usize,
}

impl ParserBuilder {
    /// The header limit the built parser will have.
    pub closed spec fn header_limit(&self) -> nat {
        self.max_header_bytes as nat
    }

    /// The body limit the built parser will have.
    pub closed spec fn body_limit(&self) -> nat {
        self.max_body_bytes as nat
    }

    /// A builder with no limits on header and body lengths.
    pub fn new() -> (res: Self)
        ensures
            res.header_limit() == usize::MAX,
            res.body_limit() == usize::MAX,
    {
        ParserBuilder { max_header_bytes: usize::MAX, max_body_bytes: usize::MAX }
    }

    /// Causes the parser to return error if a part's headers exceed this byte length.
    ///
    /// This is only checked when the parser is about to wait for another chunk:
    /// a header block that arrives complete in one chunk is parsed whatever its length.
    pub fn max_header_bytes(self, max_header_bytes: usize) -> (res: Self)
        ensures
            res.header_limit() == max_header_bytes,
            res.body_limit() == self.body_limit(),
    {
        ParserBuilder { max_header_bytes, ..self }
    }

    /// Causes the parser to return error if a part's body exceeds this byte length.
    pub fn max_body_bytes(self, max_body_bytes: usize) -> (res: Self)
        ensures
            res.header_limit() == self.header_limit(),
            res.body_limit() == max_body_bytes,
    {
        ParserBuilder { max_body_bytes, ..self }
    }

    /// A parser for a stream whose parts are separated by `boundary`, as in the
    /// `boundary` parameter of the `Content-Type` header.
    pub fn parse(self, boundary: &str) -> (res: Parser)
        ensures
            res.wf(),
            res.boundary_line() == parser_boundary_line(boundary.spec_bytes()),
            !starts_with(boundary.spec_bytes(), dashes())
                ==> res.boundary_line() == seq![45u8, 45u8] + boundary.spec_bytes() + seq![13u8, 10u8],
            res.buffered() == Seq::<u8>::empty(),
            res.phase() == Phase::Newlines,
            res.header_limit() == self.header_limit(),
            res.body_limit() == self.body_limit(),
    {
        let b = boundary.as_bytes();
        let mut line: Vec<u8> = Vec::with_capacity(b.len().saturating_add(4));
        if !(b.len() >= 2 && b[0] == 45 && b[1] == 45) {
            line.push(45);
            line.push(45);
        }
        push_all(&mut line, b);
        line.push(13);
        line.push(10);
        proof {
            let bs = boundary.spec_bytes();
            assert(starts_with(bs, dashes()) <==> (b@.len() >= 2 && b@[0] == 45 && b@[1] == 45)) by {
                if b@.len() >= 2 {
                    if b@[0] == 45 && b@[1] == 45 {
                        assert(bs.subrange(0, 2) =~= dashes());
                    } else {
                        assert(bs.subrange(0, 2)[0] == b@[0] && bs.subrange(0, 2)[1] == b@[1]);
                    }
                }
            }
            assert(line@ =~= parser_boundary_line(bs));
            crate::laws::lemma_boundary_line_bytes(bs);
        }
        Parser {
            boundary: line,
            buf: bytes_mut_new(),
            state: State::Newlines,
            max_header_bytes: self.max_header_bytes,
            max_body_bytes: self.max_body_bytes,
        }
    }
}

/// A parser with no limits on header and body lengths, for a stream whose parts
/// are separated by `boundary`, as in the `boundary` parameter of the
/// `Content-Type` header.
pub fn parse(boundary: &str) -> (res: Parser)
    ensures
        res.wf(),
        res.boundary_line() == parser_boundary_line(boundary.spec_bytes()),
        !starts_with(boundary.spec_bytes(), dashes())
            ==> res.boundary_line() == seq![45u8, 45u8] + boundary.spec_bytes() + seq![13u8, 10u8],
        res.buffered() == Seq::<u8>::empty(),
        res.phase() == Phase::Newlines,
        res.header_limit() == usize::MAX,
        res.body_limit() == usize::MAX,
{
    ParserBuilder::new().parse(boundary)
}

} // verus!
