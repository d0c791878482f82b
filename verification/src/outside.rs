//! Declarations of the outside types this library works with, and the calls
//! into outside crates (`bytes`, `http`, `httparse`, `memchr`), each with the
//! contract that Verus takes on trust.

use vstd::prelude::*;
use vstd::string::StringSliceAdditionalSpecFns;
use bytes::{Buf, BufMut, Bytes, BytesMut};
use http::header::{HeaderMap, HeaderName, HeaderValue, InvalidHeaderName, InvalidHeaderValue, ToStrError};
use crate::wire::{
    content_length_name, decimal, first_occurrence, grouped, headers_append, is_header_name, is_header_value,
    is_visible_ascii, items_append, items_insert, lists_headers, header_name_canonical, no_headers,
    HeadersView, ParsedHeaders,
};

verus! {

#[verifier::external_type_specification]
#[verifier::external_body]
pub struct ExBytes(Bytes);

#[verifier::external_type_specification]
#[verifier::external_body]
pub struct ExBytesMut(BytesMut);

#[verifier::external_type_specification]
#[verifier::external_body]
#[verifier::reject_recursive_types(T)]
pub struct ExHeaderMap<T>(HeaderMap<T>);

#[verifier::external_type_specification]
#[verifier::external_body]
pub struct ExHeaderName(HeaderName);

#[verifier::external_type_specification]
#[verifier::external_body]
pub struct ExHeaderValue(HeaderValue);

#[verifier::external_type_specification]
#[verifier::external_body]
pub struct ExInvalidHeaderName(InvalidHeaderName);

#[verifier::external_type_specification]
#[verifier::external_body]
pub struct ExInvalidHeaderValue(InvalidHeaderValue);

#[verifier::external_type_specification]
#[verifier::external_body]
pub struct ExToStrError(ToStrError);

/// The bytes that a `bytes::Bytes` holds.
pub uninterp spec fn bytes_contents(b: Bytes) -> Seq<u8>;

/// The bytes that a `bytes::BytesMut` holds.
pub uninterp spec fn bytes_mut_contents(b: BytesMut) -> Seq<u8>;

/// What an `http::HeaderMap` holds: each name, in its canonical form, mapped to
/// the values stored under it, in the order they were added.
pub uninterp spec fn header_map_contents(m: HeaderMap) -> HeadersView;

/// The (name, value) pairs of an `http::HeaderMap` in the order its iteration
/// yields them: one entry per name, each entry's values together and in the
/// order they were added.
pub uninterp spec fn header_map_items(m: HeaderMap) -> Seq<(Seq<u8>, Seq<u8>)>;

/// The bytes of an `http::HeaderName` (what `HeaderName::as_str` gives).
pub uninterp spec fn header_name_contents(n: HeaderName) -> Seq<u8>;

/// The bytes of an `http::HeaderValue` (what `HeaderValue::as_bytes` gives).
pub uninterp spec fn header_value_contents(v: HeaderValue) -> Seq<u8>;

/// What `httparse::parse_headers` makes of `src` with room for `max_headers`
/// headers: an error (with the text its `Display` gives), an incomplete header
/// block, or a complete block of a number of bytes holding (name, value) pairs
/// in order.
pub uninterp spec fn httparse_headers(src: Seq<u8>, max_headers: nat) -> ParsedHeaders;

/// The pairs of byte slices in `v`, as pairs of byte sequences.
pub open spec fn slice_pairs(v: Seq<(&[u8], &[u8])>) -> Seq<(Seq<u8>, Seq<u8>)> {
    v.map_values(|p: (&[u8], &[u8])| (p.0@, p.1@))
}

// ---- bytes ----

/// `BytesMut::new`: an empty buffer.
#[verifier::external_body]
pub(crate) fn bytes_mut_new() -> (res: BytesMut)
    ensures
        bytes_mut_contents(res) == Seq::<u8>::empty(),
{
    BytesMut::new()
}

/// `BytesMut::with_capacity`: an empty buffer (the capacity is not observable).
/// It panics when the capacity exceeds `isize::MAX`, which `requires` excludes.
#[verifier::external_body]
pub(crate) fn bytes_mut_with_capacity(capacity: usize) -> (res: BytesMut)
    requires
        capacity <= isize::MAX,
    ensures
        bytes_mut_contents(res) == Seq::<u8>::empty(),
{
    BytesMut::with_capacity(capacity)
}

/// `<BytesMut as AsRef<[u8]>>::as_ref`: the buffer's bytes as a slice.
#[verifier::external_body]
pub(crate) fn bytes_mut_as_slice(b: &BytesMut) -> (res: &[u8])
    ensures
        res@ == bytes_mut_contents(*b),
{
    b.as_ref()
}

/// `BytesMut::extend_from_slice`: appends `s`. Its reservation panics when it
/// needs more than `isize::MAX` bytes: `requires` excludes that for the bytes
/// held; the bytes already consumed from the front and the capacity it may
/// double are not visible here, so a request that only they push past that
/// bound (which no machine's memory could hold) is not excluded.
#[verifier::external_body]
pub(crate) fn bytes_mut_extend(b: &mut BytesMut, s: &[u8])
    requires
        bytes_mut_contents(*old(b)).len() + s@.len() <= isize::MAX,
    ensures
        bytes_mut_contents(*final(b)) == bytes_mut_contents(*old(b)) + s@,
{
    b.extend_from_slice(s)
}

/// `<BytesMut as BufMut>::put` with a byte slice: appends `s`. It reserves as
/// `extend_from_slice` does, and `requires` excludes the same inputs.
#[verifier::external_body]
pub(crate) fn bytes_mut_put(b: &mut BytesMut, s: &[u8])
    requires
        bytes_mut_contents(*old(b)).len() + s@.len() <= isize::MAX,
    ensures
        bytes_mut_contents(*final(b)) == bytes_mut_contents(*old(b)) + s@,
{
    b.put(s)
}

/// `<BytesMut as Buf>::advance`: drops the first `n` bytes. It panics when `n`
/// exceeds the length, which `requires` excludes.
#[verifier::external_body]
pub(crate) fn bytes_mut_advance(b: &mut BytesMut, n: usize)
    requires
        n <= bytes_mut_contents(*old(b)).len(),
    ensures
        bytes_mut_contents(*final(b)) == bytes_mut_contents(*old(b)).skip(n as int),
{
    b.advance(n)
}

/// `BytesMut::split_to`: removes the first `n` bytes and returns them. It panics
/// when `n` exceeds the length, which `requires` excludes.
#[verifier::external_body]
pub(crate) fn bytes_mut_split_to(b: &mut BytesMut, n: usize) -> (res: BytesMut)
    requires
        n <= bytes_mut_contents(*old(b)).len(),
    ensures
        bytes_mut_contents(res) == bytes_mut_contents(*old(b)).take(n as int),
        bytes_mut_contents(*final(b)) == bytes_mut_contents(*old(b)).skip(n as int),
{
    b.split_to(n)
}

/// `BytesMut::freeze`: the same bytes, as `Bytes`.
#[verifier::external_body]
pub(crate) fn bytes_mut_freeze(b: BytesMut) -> (res: Bytes)
    ensures
        bytes_contents(res) == bytes_mut_contents(b),
{
    b.freeze()
}

/// `<Bytes as Clone>::clone`: another handle on the same bytes.
pub assume_specification[ <Bytes as Clone>::clone ](b: &Bytes) -> (res: Bytes)
    ensures
        bytes_contents(res) == bytes_contents(*b),
;

/// `<HeaderMap<T> as Clone>::clone`, which `derive(Clone)` on [`crate::Part`]
/// calls; nothing is stated of its result.
pub assume_specification<T: Clone>[ <HeaderMap<T> as Clone>::clone ](m: &HeaderMap<T>) -> HeaderMap<T>;

/// `<Bytes as AsRef<[u8]>>::as_ref`: the bytes as a slice.
#[verifier::external_body]
pub(crate) fn bytes_as_slice(b: &Bytes) -> (res: &[u8])
    ensures
        res@ == bytes_contents(*b),
{
    b.as_ref()
}

// ---- http ----

/// `HeaderMap::with_capacity`: an empty map. It panics when the capacity
/// rounded up (by a third, then to a power of two) exceeds 2^15, that is for a
/// capacity over 24576, which `requires` excludes.
#[verifier::external_body]
pub(crate) fn header_map_with_capacity(capacity: usize) -> (res: HeaderMap)
    requires
        capacity <= 24576,
    ensures
        header_map_contents(res) == no_headers(),
        header_map_items(res) == Seq::<(Seq<u8>, Seq<u8>)>::empty(),
{
    HeaderMap::with_capacity(capacity)
}

/// `HeaderMap::append`: adds `value` after the values already held under
/// `name` (a new name's entry goes after all others); returns whether the name
/// was present. It panics when the map's table cannot grow past 2^15 slots;
/// with fewer than 6554 names in the map no growth goes past that bound,
/// whatever state the table is in, and `requires` asks for that. The name is
/// compared by its bytes: `http` gives equal names equal bytes.
#[verifier::external_body]
pub(crate) fn header_map_append(m: &mut HeaderMap, name: HeaderName, value: HeaderValue) -> (res: bool)
    requires
        header_map_contents(*old(m)).dom().finite(),
        header_map_contents(*old(m)).dom().len() < 6554,
    ensures
        header_map_contents(*final(m)) == headers_append(
            header_map_contents(*old(m)),
            header_name_contents(name),
            header_value_contents(value),
        ),
        header_map_items(*final(m)) == items_append(
            header_map_items(*old(m)),
            header_name_contents(name),
            header_value_contents(value),
        ),
        res == header_map_contents(*old(m)).contains_key(header_name_contents(name)),
{
    m.append(name, value)
}

/// `HeaderMap::insert`: replaces every value held under `name` by `value`,
/// which keeps the name's entry where it stood (a new name's entry goes after
/// all others); returns the first value it replaced, if any. It panics as
/// `append` does, and `requires` excludes that in the same way.
#[verifier::external_body]
pub(crate) fn header_map_insert(m: &mut HeaderMap, name: HeaderName, value: HeaderValue) -> (res: Option<HeaderValue>)
    requires
        header_map_contents(*old(m)).dom().finite(),
        header_map_contents(*old(m)).dom().len() < 6554,
    ensures
        header_map_contents(*final(m)) == header_map_contents(*old(m)).insert(
            header_name_contents(name),
            seq![header_value_contents(value)],
        ),
        header_map_items(*final(m)) == items_insert(
            header_map_items(*old(m)),
            header_name_contents(name),
            header_value_contents(value),
        ),
        res is Some <==> header_map_contents(*old(m)).contains_key(header_name_contents(name)),
        res matches Some(v) ==> header_value_contents(v) == header_map_contents(*old(m))[header_name_contents(name)][0],
{
    m.insert(name, value)
}

/// `HeaderMap::get`: the first value held under `name`, if any.
#[verifier::external_body]
pub(crate) fn header_map_get<'a>(m: &'a HeaderMap, name: &HeaderName) -> (res: Option<&'a HeaderValue>)
    ensures
        res is Some <==> header_map_contents(*m).contains_key(header_name_contents(*name)),
        res matches Some(v) ==> header_value_contents(*v) == header_map_contents(*m)[header_name_contents(*name)][0],
{
    m.get(name)
}

/// `HeaderMap::iter`, each item taken as the bytes of its name
/// (`HeaderName::as_str`) and of its value (`HeaderValue::as_bytes`): the
/// map's items in order. The iteration yields every value once, the values of
/// each name together (they share one entry) and in the order they were added.
#[verifier::external_body]
pub(crate) fn header_map_pairs<'a>(m: &'a HeaderMap) -> (res: Vec<(&'a [u8], &'a [u8])>)
    ensures
        slice_pairs(res@) == header_map_items(*m),
        lists_headers(slice_pairs(res@), header_map_contents(*m)),
        grouped(slice_pairs(res@)),
{
    m.iter().map(|(name, value)| (name.as_str().as_bytes(), value.as_bytes())).collect()
}

/// `http::header::CONTENT_LENGTH`: the name `content-length`.
#[verifier::external_body]
pub(crate) fn content_length_header() -> (res: HeaderName)
    ensures
        header_name_contents(res) == content_length_name(),
{
    http::header::CONTENT_LENGTH
}

/// `HeaderName::from_bytes`: accepts 1 to 65535 bytes that are all allowed in a
/// header name, and gives the name in canonical (lower-case) form.
#[verifier::external_body]
pub(crate) fn header_name_from_bytes(src: &[u8]) -> (res: Result<HeaderName, InvalidHeaderName>)
    ensures
        res is Ok <==> is_header_name(src@),
        res matches Ok(n) ==> header_name_contents(n) == header_name_canonical(src@),
{
    HeaderName::from_bytes(src)
}

/// `HeaderValue::from_bytes`: accepts bytes that are all allowed in a header
/// value, and keeps them as they are.
#[verifier::external_body]
pub(crate) fn header_value_from_bytes(src: &[u8]) -> (res: Result<HeaderValue, InvalidHeaderValue>)
    ensures
        res is Ok <==> is_header_value(src@),
        res matches Ok(v) ==> header_value_contents(v) == src@,
{
    HeaderValue::from_bytes(src)
}

/// `<HeaderValue as From<usize>>::from`: the decimal representation of `n`.
#[verifier::external_body]
pub(crate) fn header_value_from_usize(n: usize) -> (res: HeaderValue)
    ensures
        header_value_contents(res) == decimal(n as nat),
{
    HeaderValue::from(n)
}

/// `HeaderValue::to_str`: the value as text, when all of its bytes are visible
/// ASCII (or tabs).
#[verifier::external_body]
pub(crate) fn header_value_to_str(v: &HeaderValue) -> (res: Result<&str, ToStrError>)
    ensures
        res is Ok <==> is_visible_ascii(header_value_contents(*v)),
        res matches Ok(s) ==> s.spec_bytes() == header_value_contents(*v),
{
    v.to_str()
}

// ---- httparse ----

/// `httparse::parse_headers` on `src`, with room for `max_headers` headers
/// (`requires` keeps that room small enough to allocate); each parsed header
/// is taken as the bytes of its name and of its value, and an error as the
/// text its `Display` gives. A complete block ends within `src` and holds at
/// most `max_headers` headers.
#[verifier::external_body]
pub(crate) fn parse_headers(src: &[u8], max_headers: usize) -> (res: Result<Option<(usize, Vec<(&[u8], &[u8])>)>, String>)
    requires
        max_headers <= 4096,
    ensures
        res matches Ok(Some((n, pairs))) ==> httparse_headers(src@, max_headers as nat) == (ParsedHeaders::Complete { len: n as nat, pairs: slice_pairs(pairs@) }),
        res matches Ok(Some((n, pairs))) ==> n <= src@.len() && pairs@.len() <= max_headers,
        res matches Ok(None) ==> httparse_headers(src@, max_headers as nat) == ParsedHeaders::Partial,
        res matches Err(reason) ==> httparse_headers(src@, max_headers as nat) == (ParsedHeaders::Invalid { reason: reason@ }),
{
    let mut raw = vec![httparse::EMPTY_HEADER; max_headers];
    match httparse::parse_headers(src, &mut raw) {
        Ok(httparse::Status::Complete((n, hs))) => Ok(Some((n, hs.iter().map(|h| (h.name.as_bytes(), h.value)).collect()))),
        Ok(httparse::Status::Partial) => Ok(None),
        Err(e) => Err(e.to_string()),
    }
}

// ---- memchr ----

/// `memchr::memmem::find`: the first index at which `needle` occurs in `hay`.
#[verifier::external_body]
pub(crate) fn memmem_find(hay: &[u8], needle: &[u8]) -> (res: Option<usize>)
    ensures
        res matches Some(i) ==> first_occurrence(hay@, needle@) == Some(i as nat),
        res is None ==> first_occurrence(hay@, needle@) is None,
{
    memchr::memmem::find(hay, needle)
}

} // verus!
