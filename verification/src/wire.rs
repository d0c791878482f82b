//! Mathematical definitions of the byte-level notions that the parser, the
//! serializer and the outside calls are specified with.

use vstd::prelude::*;

verus! {

/// `"\r\n"`.
pub open spec fn crlf() -> Seq<u8> {
    seq![13u8, 10u8]
}

/// `"--"`.
pub open spec fn dashes() -> Seq<u8> {
    seq![45u8, 45u8]
}

/// `": "`, between a header's name and its value.
pub open spec fn colon_space() -> Seq<u8> {
    seq![58u8, 32u8]
}

/// `"content-length"`, the name of the header that gives a part's body length.
pub open spec fn content_length_name() -> Seq<u8> {
    seq![99u8, 111u8, 110u8, 116u8, 101u8, 110u8, 116u8, 45u8, 108u8, 101u8, 110u8, 103u8, 116u8, 104u8]
}

/// Whether `s` begins with `prefix`.
pub open spec fn starts_with(s: Seq<u8>, prefix: Seq<u8>) -> bool {
    prefix.len() <= s.len() && s.subrange(0, prefix.len() as int) == prefix
}

/// How a byte of a header name is read: token characters stand for themselves,
/// upper-case letters for their lower-case forms, and every other byte maps to 0
/// (it is not allowed in a name).
pub open spec fn header_name_char(b: u8) -> u8 {
    if 97 <= b <= 122 || 48 <= b <= 57 {
        b
    } else if 65 <= b <= 90 {
        (b + 32) as u8
    } else if b == 33 || b == 35 || b == 36 || b == 37 || b == 38 || b == 39 || b == 42 || b == 43
        || b == 45 || b == 46 || b == 94 || b == 95 || b == 96 || b == 124 || b == 126 {
        b
    } else {
        0
    }
}

/// Whether `s` can be read as a header name: between 1 and 65535 bytes, all of
/// them allowed in a name.
pub open spec fn is_header_name(s: Seq<u8>) -> bool {
    1 <= s.len() <= 65535 && forall|i: int| 0 <= i < s.len() ==> header_name_char(#[trigger] s[i]) != 0
}

/// The canonical (lower-case) form of a header name.
pub open spec fn header_name_canonical(s: Seq<u8>) -> Seq<u8> {
    s.map_values(|b: u8| header_name_char(b))
}

/// Whether `b` may appear in a header value: anything but control bytes, tab excepted.
pub open spec fn is_header_value_byte(b: u8) -> bool {
    (b >= 32 && b != 127) || b == 9
}

/// Whether `s` can be a header value.
pub open spec fn is_header_value(s: Seq<u8>) -> bool {
    forall|i: int| 0 <= i < s.len() ==> is_header_value_byte(#[trigger] s[i])
}

/// Whether `b` is visible ASCII (or a tab).
pub open spec fn is_visible_ascii_byte(b: u8) -> bool {
    (b >= 32 && b < 127) || b == 9
}

/// Whether every byte of `s` is visible ASCII (or a tab).
pub open spec fn is_visible_ascii(s: Seq<u8>) -> bool {
    forall|i: int| 0 <= i < s.len() ==> is_visible_ascii_byte(#[trigger] s[i])
}

/// Whether `b` is an ASCII decimal digit.
pub open spec fn is_digit(b: u8) -> bool {
    48 <= b <= 57
}

/// Whether `s` is a non-empty run of decimal digits.
pub open spec fn is_digits(s: Seq<u8>) -> bool {
    s.len() > 0 && forall|i: int| 0 <= i < s.len() ==> is_digit(#[trigger] s[i])
}

/// The number that a run of decimal digits denotes.
pub open spec fn digits_value(s: Seq<u8>) -> nat
    decreases s.len(),
{
    if s.len() == 0 {
        0
    } else {
        digits_value(s.drop_last()) * 10 + (s.last() - 48) as nat
    }
}

/// The decimal representation of `n`, without leading zeros.
pub open spec fn decimal(n: nat) -> Seq<u8>
    decreases n,
{
    if n < 10 {
        seq![(48 + n) as u8]
    } else {
        decimal(n / 10).push((48 + n % 10) as u8)
    }
}

/// What reading `s` as a `usize` gives: an optional `+` followed by decimal
/// digits whose value fits in a `usize`; anything else is refused.
pub open spec fn usize_from_decimal(s: Seq<u8>) -> Option<usize> {
    let digits = if s.len() > 0 && s[0] == 43 { s.skip(1) } else { s };
    if is_digits(digits) && digits_value(digits) <= usize::MAX {
        Some(digits_value(digits) as usize)
    } else {
        None
    }
}

/// Whether `needle` occurs in `hay` starting at index `i`.
pub open spec fn occurs_at(hay: Seq<u8>, needle: Seq<u8>, i: int) -> bool {
    0 <= i && i + needle.len() <= hay.len() && hay.subrange(i, i + needle.len()) == needle
}

/// The first index, from `from` on, at which `needle` occurs in `hay`.
pub open spec fn first_occurrence_from(hay: Seq<u8>, needle: Seq<u8>, from: int) -> Option<nat>
    decreases hay.len() + 1 - from,
{
    if from < 0 || from + needle.len() > hay.len() {
        None
    } else if occurs_at(hay, needle, from) {
        Some(from as nat)
    } else {
        first_occurrence_from(hay, needle, from + 1)
    }
}

/// The first index at which `needle` occurs in `hay`, if any.
pub open spec fn first_occurrence(hay: Seq<u8>, needle: Seq<u8>) -> Option<nat> {
    first_occurrence_from(hay, needle, 0)
}

/// An index that [`first_occurrence_from`] gives is one where the needle occurs.
pub proof fn lemma_first_occurrence_occurs(hay: Seq<u8>, needle: Seq<u8>, from: int)
    ensures
        first_occurrence_from(hay, needle, from) matches Some(i) ==> from <= i && occurs_at(hay, needle, i as int),
    decreases hay.len() + 1 - from,
{
    if !(from < 0 || from + needle.len() > hay.len()) && !occurs_at(hay, needle, from) {
        lemma_first_occurrence_occurs(hay, needle, from + 1);
    }
}

/// A header map as a mathematical value: each name (in canonical form) maps to
/// the non-empty list of its values, in the order they were added.
pub type HeadersView = Map<Seq<u8>, Seq<Seq<u8>>>;

/// A header map with no headers.
pub open spec fn no_headers() -> HeadersView {
    Map::empty()
}

/// What reading a header block gives.
pub enum ParsedHeaders {
    /// The bytes are not a valid header block; `reason` says why.
    Invalid { reason: Seq<char> },
    /// The header block is not complete yet.
    Partial,
    /// A complete block of `len` bytes, holding `pairs` in order.
    Complete { len: nat, pairs: Seq<(Seq<u8>, Seq<u8>)> },
}

/// The values that `pairs` lists under `name`, in order.
pub open spec fn values_named(pairs: Seq<(Seq<u8>, Seq<u8>)>, name: Seq<u8>) -> Seq<Seq<u8>>
    decreases pairs.len(),
{
    if pairs.len() == 0 {
        Seq::empty()
    } else if pairs.last().0 == name {
        values_named(pairs.drop_last(), name).push(pairs.last().1)
    } else {
        values_named(pairs.drop_last(), name)
    }
}

/// The values a header map holds under `name` (none when the name is absent).
pub open spec fn values_of(headers: HeadersView, name: Seq<u8>) -> Seq<Seq<u8>> {
    if headers.contains_key(name) {
        headers[name]
    } else {
        Seq::empty()
    }
}

/// Whether `pairs` lists exactly the (name, value) pairs of `headers`, the values
/// of each name in their order (the order between names is not fixed).
pub open spec fn lists_headers(pairs: Seq<(Seq<u8>, Seq<u8>)>, headers: HeadersView) -> bool {
    &&& forall|name: Seq<u8>| #[trigger] values_named(pairs, name) == values_of(headers, name)
    &&& forall|name: Seq<u8>| #[trigger] headers.contains_key(name) ==> headers[name].len() > 0
}

/// `headers` with `value` added after the values already held under `name`.
pub open spec fn headers_append(headers: HeadersView, name: Seq<u8>, value: Seq<u8>) -> HeadersView {
    headers.insert(name, values_of(headers, name).push(value))
}

/// A listing of headers, in order, after replacing every value held under
/// `name` by `value`: the new pair stands where the first pair under `name`
/// stood, or at the end when there was none.
pub open spec fn items_insert(items: Seq<(Seq<u8>, Seq<u8>)>, name: Seq<u8>, value: Seq<u8>) -> Seq<(Seq<u8>, Seq<u8>)>
    decreases items.len(),
{
    if items.len() == 0 {
        seq![(name, value)]
    } else if items[0].0 == name {
        seq![(name, value)] + items.skip(1).filter(|p: (Seq<u8>, Seq<u8>)| p.0 != name)
    } else {
        seq![items[0]] + items_insert(items.skip(1), name, value)
    }
}

/// A listing of headers, in order, after adding `value` under `name`: the new
/// pair follows the last pair under `name`, or stands at the end when there
/// was none.
pub open spec fn items_append(items: Seq<(Seq<u8>, Seq<u8>)>, name: Seq<u8>, value: Seq<u8>) -> Seq<(Seq<u8>, Seq<u8>)>
    decreases items.len(),
{
    if items.len() == 0 || values_named(items, name).len() == 0 || items.last().0 == name {
        items.push((name, value))
    } else {
        items_append(items.drop_last(), name, value).push(items.last())
    }
}

/// The listing a header map has after each pair of `pairs` is added in turn,
/// names in canonical form, to a map with none.
pub open spec fn items_of_pairs(pairs: Seq<(Seq<u8>, Seq<u8>)>) -> Seq<(Seq<u8>, Seq<u8>)>
    decreases pairs.len(),
{
    if pairs.len() == 0 {
        Seq::empty()
    } else {
        items_append(items_of_pairs(pairs.drop_last()), header_name_canonical(pairs.last().0), pairs.last().1)
    }
}

/// Whether the pairs under each name stand together in `pairs`.
pub open spec fn grouped(pairs: Seq<(Seq<u8>, Seq<u8>)>) -> bool {
    forall|i: int, j: int, k: int|
        #![trigger pairs[i], pairs[j], pairs[k]]
        0 <= i < j < k < pairs.len() && pairs[i].0 == pairs[k].0 ==> pairs[j].0 == pairs[i].0
}

/// One header line: `name: value\r\n`.
pub open spec fn header_line(pair: (Seq<u8>, Seq<u8>)) -> Seq<u8> {
    pair.0 + colon_space() + pair.1 + crlf()
}

/// Header lines for each pair in turn (without the final empty line).
pub open spec fn header_lines(pairs: Seq<(Seq<u8>, Seq<u8>)>) -> Seq<u8>
    decreases pairs.len(),
{
    if pairs.len() == 0 {
        Seq::empty()
    } else {
        header_lines(pairs.drop_last()) + header_line(pairs.last())
    }
}

/// A whole header block: the header lines, then an empty line.
pub open spec fn header_block(pairs: Seq<(Seq<u8>, Seq<u8>)>) -> Seq<u8> {
    header_lines(pairs) + crlf()
}

} // verus!

verus! {

/// The boundary line the parser looks for, given the `boundary` parameter of
/// the `Content-Type` header: `--` (unless the parameter already starts with
/// it), the parameter, then `\r\n`.
pub open spec fn parser_boundary_line(boundary: Seq<u8>) -> Seq<u8> {
    (if starts_with(boundary, dashes()) { boundary } else { dashes() + boundary }) + crlf()
}

/// The boundary line the serializer writes before each part: `--`, the
/// `boundary` parameter, then `\r\n`.
pub open spec fn serializer_boundary_line(boundary: Seq<u8>) -> Seq<u8> {
    dashes() + boundary + crlf()
}

} // verus!
