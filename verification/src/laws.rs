//! Properties of the parser and the serializer that span calls, stated over the
//! mathematical models that the functions' contracts use, and proved.

use vstd::prelude::*;
use crate::PartView;
use crate::outside::httparse_headers;
use crate::parser::{
    declared_body_len, headers_from_pairs, phase_wf, progresses, rank,
    run, step, Emit, Failure, Phase, Step, MAX_HEADERS,
};
use crate::serializer::with_content_length;
use crate::wire::{
    content_length_name, crlf, dashes, decimal, digits_value, first_occurrence, grouped,
    items_insert, items_of_pairs,
    lemma_first_occurrence_occurs, header_block,
    header_name_canonical, headers_append, is_digit, is_digits, is_header_name, is_header_value,
    is_visible_ascii, lists_headers, no_headers, parser_boundary_line, serializer_boundary_line,
    starts_with, usize_from_decimal, values_named, values_of, HeadersView, ParsedHeaders,
};

verus! {

// ---- facts about decimal numbers ----

/// The decimal representation of `n` is a run of digits that denotes `n`.
proof fn lemma_decimal(n: nat)
    ensures
        is_digits(decimal(n)),
        digits_value(decimal(n)) == n,
    decreases n,
{
    if n < 10 {
        assert(decimal(n).drop_last() =~= Seq::<u8>::empty());
        assert(decimal(n).last() == (48 + n) as u8);
        assert(digits_value(decimal(n)) == digits_value(decimal(n).drop_last()) * 10 + (decimal(n).last() - 48) as nat);
    } else {
        lemma_decimal(n / 10);
        assert(decimal(n).drop_last() =~= decimal(n / 10));
        let d = decimal(n);
        assert forall|i: int| 0 <= i < d.len() implies is_digit(#[trigger] d[i]) by {
            if i < d.len() - 1 {
                assert(d[i] == decimal(n / 10)[i]);
            }
        }
        assert(n == 10 * (n / 10) + n % 10) by {
            vstd::arithmetic::div_mod::lemma_fundamental_div_mod(n as int, 10);
        }
        assert(d.last() == (48 + n % 10) as u8);
        assert(digits_value(d) == digits_value(decimal(n / 10)) * 10 + (d.last() - 48) as nat);
    }
}

/// A `usize` written in decimal reads back as itself.
pub proof fn lemma_usize_from_decimal(n: usize)
    ensures
        is_visible_ascii(decimal(n as nat)),
        usize_from_decimal(decimal(n as nat)) == Some(n),
{
    lemma_decimal(n as nat);
    let d = decimal(n as nat);
    assert(is_digit(d[0]));
    assert forall|i: int| 0 <= i < d.len() implies crate::wire::is_visible_ascii_byte(#[trigger] d[i]) by {
        assert(is_digit(d[i]));
    }
}

/// The body length that a serialized part's headers declare is the length of
/// its body.
pub proof fn lemma_declared_length_of_serialized(headers: HeadersView, body_len: usize)
    ensures
        declared_body_len(with_content_length(headers, body_len as nat)) == Ok::<Option<nat>, Failure>(Some(body_len as nat)),
{
    lemma_usize_from_decimal(body_len);
    let h = with_content_length(headers, body_len as nat);
    assert(h.contains_key(content_length_name()));
    assert(h[content_length_name()][0] == decimal(body_len as nat));
}

// ---- headers rebuilt from a listing ----

/// The headers that appending each pair of `pairs` in turn makes.
pub open spec fn headers_of_pairs(pairs: Seq<(Seq<u8>, Seq<u8>)>) -> HeadersView
    decreases pairs.len(),
{
    if pairs.len() == 0 {
        no_headers()
    } else {
        headers_append(headers_of_pairs(pairs.drop_last()), pairs.last().0, pairs.last().1)
    }
}

/// Whether every pair has a valid name in canonical form and a valid value.
pub open spec fn canonical_pairs(pairs: Seq<(Seq<u8>, Seq<u8>)>) -> bool {
    forall|i: int| 0 <= i < pairs.len() ==> {
        &&& is_header_name(#[trigger] pairs[i].0)
        &&& header_name_canonical(pairs[i].0) == pairs[i].0
        &&& is_header_value(pairs[i].1)
    }
}

proof fn lemma_headers_of_pairs(pairs: Seq<(Seq<u8>, Seq<u8>)>, name: Seq<u8>)
    ensures
        values_of(headers_of_pairs(pairs), name) == values_named(pairs, name),
        headers_of_pairs(pairs).contains_key(name) <==> values_named(pairs, name).len() > 0,
    decreases pairs.len(),
{
    if pairs.len() > 0 {
        lemma_headers_of_pairs(pairs.drop_last(), name);
    }
}

proof fn lemma_headers_from_canonical_pairs(pairs: Seq<(Seq<u8>, Seq<u8>)>)
    requires
        canonical_pairs(pairs),
    ensures
        headers_from_pairs(pairs) == Ok::<HeadersView, Failure>(headers_of_pairs(pairs)),
    decreases pairs.len(),
{
    if pairs.len() > 0 {
        let init = pairs.drop_last();
        assert forall|i: int| 0 <= i < init.len() implies {
            &&& is_header_name(#[trigger] init[i].0)
            &&& header_name_canonical(init[i].0) == init[i].0
            &&& is_header_value(init[i].1)
        } by {
            assert(init[i] == pairs[i]);
        }
        lemma_headers_from_canonical_pairs(init);
        assert(pairs.last() == pairs[pairs.len() - 1]);
    }
}

/// Headers rebuilt from any valid listing of them are the headers listed.
pub proof fn lemma_headers_from_listing(pairs: Seq<(Seq<u8>, Seq<u8>)>, headers: HeadersView)
    requires
        lists_headers(pairs, headers),
        canonical_pairs(pairs),
    ensures
        headers_from_pairs(pairs) == Ok::<HeadersView, Failure>(headers),
{
    lemma_headers_from_canonical_pairs(pairs);
    let rebuilt = headers_of_pairs(pairs);
    assert forall|name: Seq<u8>| #[trigger] rebuilt.contains_key(name) <==> headers.contains_key(name) by {
        lemma_headers_of_pairs(pairs, name);
        assert(values_named(pairs, name) == values_of(headers, name));
    }
    assert forall|name: Seq<u8>| #[trigger] rebuilt.contains_key(name) implies rebuilt[name] == headers[name] by {
        lemma_headers_of_pairs(pairs, name);
        assert(values_named(pairs, name) == values_of(headers, name));
    }
    assert(rebuilt =~= headers);
}

/// A name that `pairs` lists values under occurs in `pairs`.
proof fn lemma_values_named_index(pairs: Seq<(Seq<u8>, Seq<u8>)>, name: Seq<u8>)
    requires
        values_named(pairs, name).len() > 0,
    ensures
        exists|i: int| 0 <= i < pairs.len() && (#[trigger] pairs[i]).0 == name,
    decreases pairs.len(),
{
    if pairs.last().0 != name {
        lemma_values_named_index(pairs.drop_last(), name);
        let i = choose|i: int| 0 <= i < pairs.drop_last().len() && (#[trigger] pairs.drop_last()[i]).0 == name;
        assert(pairs[i] == pairs.drop_last()[i]);
    } else {
        assert(pairs[pairs.len() - 1].0 == name);
    }
}

/// A listing with valid names in canonical form, each name's pairs together,
/// is the listing that adding its pairs in turn to an empty map gives.
pub proof fn lemma_items_of_grouped(pairs: Seq<(Seq<u8>, Seq<u8>)>)
    requires
        canonical_pairs(pairs),
        grouped(pairs),
    ensures
        items_of_pairs(pairs) == pairs,
    decreases pairs.len(),
{
    if pairs.len() > 0 {
        let init = pairs.drop_last();
        let last = pairs.len() - 1;
        assert forall|i: int| 0 <= i < init.len() implies {
            &&& is_header_name(#[trigger] init[i].0)
            &&& header_name_canonical(init[i].0) == init[i].0
            &&& is_header_value(init[i].1)
        } by {
            assert(init[i] == pairs[i]);
        }
        assert forall|i: int, j: int, k: int|
            #![trigger init[i], init[j], init[k]]
            0 <= i < j < k < init.len() && init[i].0 == init[k].0 implies init[j].0 == init[i].0 by {
            assert(init[i] == pairs[i] && init[j] == pairs[j] && init[k] == pairs[k]);
        }
        lemma_items_of_grouped(init);
        let name = pairs.last().0;
        assert(pairs.last() == pairs[last]);
        assert(header_name_canonical(name) == name);
        if !(init.len() == 0 || values_named(init, name).len() == 0 || init.last().0 == name) {
            lemma_values_named_index(init, name);
            let i = choose|i: int| 0 <= i < init.len() && (#[trigger] init[i]).0 == name;
            assert(init[i] == pairs[i]);
            assert(init.last() == pairs[last - 1]);
            assert(pairs[i].0 == pairs[last].0);
            assert(pairs[last - 1].0 == pairs[i].0);
            assert(false);
        }
        assert(init.push(pairs.last()) =~= pairs);
    }
}

// ---- the parser on what the serializer writes ----

/// The bytes the serializer sends for one part: its boundary line, a header
/// block listing `pairs`, and its body.
pub open spec fn serialized_part(boundary: Seq<u8>, pairs: Seq<(Seq<u8>, Seq<u8>)>, body: Seq<u8>) -> Seq<u8> {
    serializer_boundary_line(boundary) + header_block(pairs) + body
}

/// The part the parser is expected to give back for `part`: the same body, and
/// the headers with `Content-Length` set as the serializer sets it, in the
/// same order.
pub open spec fn sent_part(part: PartView) -> PartView {
    PartView {
        headers: with_content_length(part.headers, part.body.len()),
        items: items_insert(part.items, content_length_name(), decimal(part.body.len())),
        body: part.body,
    }
}

/// Whether `pairs` is the header block the serializer sends for `part` (its
/// items in order, each name's pairs together), and the parser reads it back
/// as such when `rest` follows the body.
pub open spec fn reads_back(part: PartView, pairs: Seq<(Seq<u8>, Seq<u8>)>, rest: Seq<u8>) -> bool {
    &&& pairs == sent_part(part).items
    &&& grouped(pairs)
    &&& lists_headers(pairs, sent_part(part).headers)
    &&& canonical_pairs(pairs)
    &&& httparse_headers(header_block(pairs) + part.body + rest, MAX_HEADERS as nat)
        == (ParsedHeaders::Complete { len: header_block(pairs).len(), pairs })
}

/// One part the serializer sends comes back from the parser: given a boundary
/// that does not start with `--`, a body within the body limit (an empty one
/// included), and a header block that `httparse` reads as the pairs it lists,
/// the parser,
/// between parts and with the part and anything after it buffered, gives back
/// the part with its `Content-Length` set, and stands between parts before
/// whatever followed.
#[verifier::rlimit(30)]
#[verifier::spinoff_prover]
pub proof fn lemma_parse_serialized_part(
    boundary: Seq<u8>,
    part: PartView,
    pairs: Seq<(Seq<u8>, Seq<u8>)>,
    rest: Seq<u8>,
    max_header_bytes: nat,
    max_body_bytes: nat,
)
    requires
        !starts_with(boundary, dashes()),
        part.body.len() <= max_body_bytes,
        part.body.len() <= usize::MAX,
        reads_back(part, pairs, rest),
    ensures
        run(
            Phase::Newlines,
            parser_boundary_line(boundary),
            serialized_part(boundary, pairs, part.body) + rest,
            max_header_bytes,
            max_body_bytes,
        ) == (Phase::Newlines, rest, Emit::Part(sent_part(part))),
{
    let line = parser_boundary_line(boundary);
    let block = header_block(pairs);
    let body = part.body;
    let buf = serialized_part(boundary, pairs, body) + rest;
    let sent = sent_part(part);
    assert(line =~= serializer_boundary_line(boundary));
    assert(buf =~= line + (block + body + rest));
    assert(buf[0] == 45);
    // Newlines: the boundary line does not start with "\r\n".
    assert(step(Phase::Newlines, line, buf, max_header_bytes, max_body_bytes) == Step::Continue(Phase::Boundary { pos: 0 }, buf));
    // Boundary: the whole line matches.
    let after_line = block + body + rest;
    assert(buf.take(line.len() as int) =~= line.subrange(0, line.len() as int));
    assert(buf.skip(line.len() as int) =~= after_line);
    assert(step(Phase::Boundary { pos: 0 }, line, buf, max_header_bytes, max_body_bytes) == Step::Continue(Phase::Headers, after_line));
    // Headers: the block reads as the listed headers, which declare the body length.
    lemma_headers_from_listing(pairs, sent.headers);
    lemma_declared_length_of_serialized(part.headers, body.len() as usize);
    assert(after_line =~= block + body + rest);
    assert(after_line.skip(block.len() as int) =~= body + rest);
    assert(block.len() >= 2);
    lemma_items_of_grouped(pairs);
    let body_phase = Phase::Body { headers: sent.headers, items: sent.items, body_len: Some(body.len()) };
    assert(step(Phase::Headers, line, after_line, max_header_bytes, max_body_bytes)
        == Step::Continue(body_phase, body + rest));
    // Body: the declared number of bytes is there.
    assert((body + rest).take(body.len() as int) =~= body);
    assert((body + rest).skip(body.len() as int) =~= rest);
    assert(step(body_phase, line, body + rest, max_header_bytes, max_body_bytes)
        == Step::Stop(Phase::Newlines, rest, Emit::Part(sent)));
    assert(progresses(Phase::Headers, after_line, body_phase, body + rest));
    assert(run(body_phase, line, body + rest, max_header_bytes, max_body_bytes)
        == (Phase::Newlines, rest, Emit::Part(sent)));
    assert(run(Phase::Headers, line, after_line, max_header_bytes, max_body_bytes) == (Phase::Newlines, rest, Emit::Part(sent)));
    assert(run(Phase::Boundary { pos: 0 }, line, buf, max_header_bytes, max_body_bytes) == (Phase::Newlines, rest, Emit::Part(sent)));
}

} // verus!

verus! {

/// The bytes the serializer sends for the parts `parts`, the header block of
/// each listing the pairs in `listings` at the same index.
pub open spec fn serialized_stream(boundary: Seq<u8>, parts: Seq<PartView>, listings: Seq<Seq<(Seq<u8>, Seq<u8>)>>) -> Seq<u8>
    decreases parts.len(),
{
    if parts.len() == 0 || listings.len() == 0 {
        Seq::empty()
    } else {
        serialized_part(boundary, listings[0], parts[0].body) + serialized_stream(boundary, parts.skip(1), listings.skip(1))
    }
}

/// What `n` calls of [`crate::Parser::poll_part`] report, and where they leave
/// the parser: after a failure the parser is finished.
pub open spec fn polls(phase: Phase, boundary: Seq<u8>, buf: Seq<u8>, max_header_bytes: nat, max_body_bytes: nat, n: nat) -> (Phase, Seq<u8>, Seq<Emit>)
    decreases n,
{
    if n == 0 {
        (phase, buf, Seq::empty())
    } else {
        let (next, rest, emit) = run(phase, boundary, buf, max_header_bytes, max_body_bytes);
        let next = if emit is Failed { Phase::Done } else { next };
        let (last, left, emits) = polls(next, boundary, rest, max_header_bytes, max_body_bytes, (n - 1) as nat);
        (last, left, seq![emit] + emits)
    }
}

/// Whether each part of a serialized stream reads back: its body is within the
/// limit, and its header block reads as the pairs it lists.
pub open spec fn stream_reads_back(
    boundary: Seq<u8>,
    parts: Seq<PartView>,
    listings: Seq<Seq<(Seq<u8>, Seq<u8>)>>,
    max_body_bytes: nat,
) -> bool {
    &&& parts.len() == listings.len()
    &&& forall|i: int| 0 <= i < parts.len() ==> {
        &&& (#[trigger] parts[i]).body.len() <= max_body_bytes
        &&& parts[i].body.len() <= usize::MAX
        &&& reads_back(parts[i], listings[i], serialized_stream(boundary, parts.skip(i + 1), listings.skip(i + 1)))
    }
}

/// Round trip: what the serializer sends for a sequence of parts, handed to the
/// parser at once, comes back as the same parts, each with its `Content-Length`
/// set, one per call; the parser is then between parts with nothing buffered,
/// so it needs input, and the end of input ends the stream cleanly. This holds
/// for a boundary that does not start with `--` (the parser would not add the
/// `--` that the serializer adds), for bodies within the body limit (empty ones included),
/// and for header blocks that `httparse` reads as the pairs they list.
#[verifier::rlimit(30)]
#[verifier::spinoff_prover]
pub proof fn lemma_roundtrip(
    boundary: Seq<u8>,
    parts: Seq<PartView>,
    listings: Seq<Seq<(Seq<u8>, Seq<u8>)>>,
    max_header_bytes: nat,
    max_body_bytes: nat,
)
    requires
        !starts_with(boundary, dashes()),
        stream_reads_back(boundary, parts, listings, max_body_bytes),
    ensures
        polls(
            Phase::Newlines,
            parser_boundary_line(boundary),
            serialized_stream(boundary, parts, listings),
            max_header_bytes,
            max_body_bytes,
            parts.len(),
        ) == (Phase::Newlines, Seq::<u8>::empty(), Seq::new(parts.len(), |i: int| Emit::Part(sent_part(parts[i])))),
        run(Phase::Newlines, parser_boundary_line(boundary), Seq::<u8>::empty(), max_header_bytes, max_body_bytes)
            == (Phase::Newlines, Seq::<u8>::empty(), Emit::Pending),
    decreases parts.len(),
{
    let line = parser_boundary_line(boundary);
    if parts.len() > 0 {
        let tail = parts.skip(1);
        let tail_listings = listings.skip(1);
        let rest = serialized_stream(boundary, tail, tail_listings);
        assert(parts[0] == parts[0]);
        assert(parts.skip(0int + 1) == tail);
        lemma_parse_serialized_part(boundary, parts[0], listings[0], rest, max_header_bytes, max_body_bytes);
        assert(stream_reads_back(boundary, tail, tail_listings, max_body_bytes)) by {
            assert forall|i: int| 0 <= i < tail.len() implies {
                &&& (#[trigger] tail[i]).body.len() <= max_body_bytes
                &&& tail[i].body.len() <= usize::MAX
                &&& reads_back(tail[i], tail_listings[i], serialized_stream(boundary, tail.skip(i + 1), tail_listings.skip(i + 1)))
            } by {
                assert(tail[i] == parts[i + 1]);
                assert(tail_listings[i] == listings[i + 1]);
                assert(tail.skip(i + 1) =~= parts.skip(i + 2));
                assert(tail_listings.skip(i + 1) =~= listings.skip(i + 2));
            }
        }
        lemma_roundtrip(boundary, tail, tail_listings, max_header_bytes, max_body_bytes);
        let expected = Seq::new(parts.len(), |i: int| Emit::Part(sent_part(parts[i])));
        let expected_tail = Seq::new(tail.len(), |i: int| Emit::Part(sent_part(tail[i])));
        assert(expected =~= seq![Emit::Part(sent_part(parts[0]))] + expected_tail);
    } else {
        assert(serialized_stream(boundary, parts, listings) == Seq::<u8>::empty());
    }
}

/// Any number of `\r\n` pairs may come before a boundary: one more changes
/// nothing of what the parser does between parts.
pub proof fn lemma_newlines_skipped(boundary: Seq<u8>, buf: Seq<u8>, max_header_bytes: nat, max_body_bytes: nat)
    ensures
        run(Phase::Newlines, boundary, crlf() + buf, max_header_bytes, max_body_bytes)
            == run(Phase::Newlines, boundary, buf, max_header_bytes, max_body_bytes),
{
    assert((crlf() + buf).skip(2) =~= buf);
}

/// A finished parser stays finished: it reports the end of the stream and
/// consumes nothing.
pub proof fn lemma_finished_stays_finished(boundary: Seq<u8>, buf: Seq<u8>, max_header_bytes: nat, max_body_bytes: nat)
    ensures
        run(Phase::Done, boundary, buf, max_header_bytes, max_body_bytes) == (Phase::Done, buf, Emit::Finished),
{
}

/// No preamble: between parts, bytes that are neither `\r\n` nor the boundary
/// line are refused.
pub proof fn lemma_no_preamble(boundary: Seq<u8>, buf: Seq<u8>, max_header_bytes: nat, max_body_bytes: nat)
    requires
        boundary.len() >= 2,
        buf.len() >= boundary.len(),
        !(buf[0] == 13 && buf[1] == 10),
        !starts_with(buf, boundary),
    ensures
        run(Phase::Newlines, boundary, buf, max_header_bytes, max_body_bytes)
            == (Phase::Boundary { pos: 0 }, buf, Emit::Failed(Failure::BadBoundary)),
{
    assert(boundary.subrange(0, boundary.len() as int) =~= boundary);
    assert(buf.take(boundary.len() as int) =~= buf.subrange(0, boundary.len() as int));
    assert(buf.take(boundary.len() as int) != boundary.subrange(0, boundary.len() as int));
    assert(step(Phase::Newlines, boundary, buf, max_header_bytes, max_body_bytes)
        == Step::Continue(Phase::Boundary { pos: 0 }, buf));
    assert(step(Phase::Boundary { pos: 0 }, boundary, buf, max_header_bytes, max_body_bytes)
        == Step::Stop(Phase::Boundary { pos: 0 }, buf, Emit::Failed(Failure::BadBoundary)));
    assert(run(Phase::Boundary { pos: 0 }, boundary, buf, max_header_bytes, max_body_bytes)
        == (Phase::Boundary { pos: 0 }, buf, Emit::Failed(Failure::BadBoundary)));
    assert(progresses(Phase::Newlines, buf, Phase::Boundary { pos: 0 }, buf));
}

/// The header limit: whenever the parser waits for more of a header block, it
/// holds fewer bytes than the limit.
pub proof fn lemma_header_limit(phase: Phase, boundary: Seq<u8>, buf: Seq<u8>, max_header_bytes: nat, max_body_bytes: nat)
    requires
        boundary.len() >= 1,
        phase_wf(phase, boundary.len()),
    ensures
        ({
            let (next, rest, emit) = run(phase, boundary, buf, max_header_bytes, max_body_bytes);
            next is Headers && emit is Pending ==> rest.len() < max_header_bytes
        }),
    decreases buf.len(), rank(phase),
{
    match step(phase, boundary, buf, max_header_bytes, max_body_bytes) {
        Step::Stop(..) => {},
        Step::Continue(next, next_buf) => {
            if progresses(phase, buf, next, next_buf) {
                lemma_header_limit(next, boundary, next_buf, max_header_bytes, max_body_bytes);
            } else {
                assert(!(next is Headers));
            }
        },
    }
}

/// Whether a phase keeps the body limit: a part whose body is awaited awaits
/// the length its headers declare, if any, and that length is within the limit.
pub open spec fn keeps_body_limit(phase: Phase, max_body_bytes: nat) -> bool {
    phase matches Phase::Body { headers, body_len, .. } ==> {
        &&& declared_body_len(headers) == Ok::<Option<nat>, Failure>(body_len)
        &&& body_len matches Some(n) ==> n <= max_body_bytes
    }
}

/// The body limit: every part the parser gives has a body within the limit,
/// whether its headers declare the length or the body runs up to the next
/// boundary line; its headers are valid, and a part whose headers declare a
/// length has a body of exactly that length. The phase keeps this from one
/// call to the next.
pub proof fn lemma_body_limit(phase: Phase, boundary: Seq<u8>, buf: Seq<u8>, max_header_bytes: nat, max_body_bytes: nat)
    requires
        keeps_body_limit(phase, max_body_bytes),
    ensures
        ({
            let (next, rest, emit) = run(phase, boundary, buf, max_header_bytes, max_body_bytes);
            &&& keeps_body_limit(next, max_body_bytes)
            &&& emit matches Emit::Part(p) ==> {
                &&& p.body.len() <= max_body_bytes
                &&& declared_body_len(p.headers) is Ok
                &&& declared_body_len(p.headers) matches Ok(Some(n)) ==> p.body.len() == n
            }
        }),
    decreases buf.len(), rank(phase),
{
    lemma_first_occurrence_occurs(buf, boundary, 0);
    match step(phase, boundary, buf, max_header_bytes, max_body_bytes) {
        Step::Stop(..) => {},
        Step::Continue(next, next_buf) => {
            if progresses(phase, buf, next, next_buf) {
                lemma_body_limit(next, boundary, next_buf, max_header_bytes, max_body_bytes);
            }
        },
    }
}

} // verus!

verus! {

/// The stream ends only once the parser is finished: from any other phase, a
/// call reports a part, a need for input or a failure, never the end.
pub proof fn lemma_no_end_before_finish(phase: Phase, boundary: Seq<u8>, buf: Seq<u8>, max_header_bytes: nat, max_body_bytes: nat)
    requires
        !(phase is Done),
    ensures
        !(run(phase, boundary, buf, max_header_bytes, max_body_bytes).2 is Finished),
    decreases buf.len(), rank(phase),
{
    match step(phase, boundary, buf, max_header_bytes, max_body_bytes) {
        Step::Stop(..) => {},
        Step::Continue(next, next_buf) => {
            if progresses(phase, buf, next, next_buf) {
                lemma_no_end_before_finish(next, boundary, next_buf, max_header_bytes, max_body_bytes);
            }
        },
    }
}

} // verus!

verus! {

// ---- how the input is split into chunks does not matter ----

/// Whether `httparse` reads the header block at the start of `buf` the same
/// way whatever bytes `ext` follow: a complete block (within `buf`) stays the
/// same complete block, and an invalid one stays invalid.
pub open spec fn httparse_reads_prefix(buf: Seq<u8>, ext: Seq<u8>) -> bool {
    match httparse_headers(buf, MAX_HEADERS as nat) {
        ParsedHeaders::Complete { len, pairs } => {
            &&& len <= buf.len()
            &&& httparse_headers(buf + ext, MAX_HEADERS as nat) == (ParsedHeaders::Complete { len, pairs })
        },
        ParsedHeaders::Invalid { reason } => httparse_headers(buf + ext, MAX_HEADERS as nat) == (ParsedHeaders::Invalid { reason }),
        ParsedHeaders::Partial => true,
    }
}

/// Whether `httparse` reads every header block independently of what follows it.
pub open spec fn httparse_reads_prefixes() -> bool {
    forall|buf: Seq<u8>, ext: Seq<u8>| #[trigger] httparse_reads_prefix(buf, ext)
}

/// The first occurrence of a needle is still the first once bytes are appended.
proof fn lemma_first_occurrence_extends(hay: Seq<u8>, needle: Seq<u8>, ext: Seq<u8>, from: int)
    requires
        crate::wire::first_occurrence_from(hay, needle, from) is Some,
    ensures
        crate::wire::first_occurrence_from(hay + ext, needle, from) == crate::wire::first_occurrence_from(hay, needle, from),
    decreases hay.len() + 1 - from,
{
    let big = hay + ext;
    if from >= 0 && from + needle.len() <= hay.len() {
        assert(big.subrange(from, from + needle.len()) =~= hay.subrange(from, from + needle.len()));
        if !crate::wire::occurs_at(hay, needle, from) {
            lemma_first_occurrence_extends(hay, needle, ext, from + 1);
        }
    }
}

/// Whether two results of [`run`] are alike: the same report, and, unless it is
/// a failure (after which the parser is finished), the same phase and buffer.
pub open spec fn alike(a: (Phase, Seq<u8>, Emit), b: (Phase, Seq<u8>, Emit)) -> bool {
    &&& a.2 == b.2
    &&& !(a.2 is Failed) ==> a.0 == b.0 && a.1 == b.1
}

/// A call of the parser on `buf` followed by `ext`: when the call on `buf`
/// alone needs more input, the call on both is like a call, from where that
/// one stopped, on what it left followed by `ext`; when it reports a part or
/// the end, the call on both reports the same, leaving `ext` after what it
/// left; a failure stays the same failure. This holds as long as `httparse`
/// reads header blocks independently of what follows and the header limit is
/// not reached.
pub proof fn lemma_run_extends(
    phase: Phase,
    boundary: Seq<u8>,
    buf: Seq<u8>,
    ext: Seq<u8>,
    max_header_bytes: nat,
    max_body_bytes: nat,
)
    requires
        boundary.len() >= 1,
        phase_wf(phase, boundary.len()),
        httparse_reads_prefixes(),
        buf.len() + ext.len() < max_header_bytes,
    ensures
        ({
            let (next, rest, emit) = run(phase, boundary, buf, max_header_bytes, max_body_bytes);
            let whole = run(phase, boundary, buf + ext, max_header_bytes, max_body_bytes);
            &&& emit is Pending ==> alike(whole, run(next, boundary, rest + ext, max_header_bytes, max_body_bytes))
            &&& (emit is Part || emit is Finished) ==> whole == (next, rest + ext, emit)
            &&& emit is Failed ==> whole.2 == emit
        }),
    decreases buf.len(), rank(phase),
{
    let big = buf + ext;
    match phase {
        Phase::Newlines => {
            if buf.len() >= 2 {
                assert(big[0] == buf[0] && big[1] == buf[1]);
                if buf[0] == 13 && buf[1] == 10 {
                    assert(big.skip(2) =~= buf.skip(2) + ext);
                    lemma_run_extends(Phase::Newlines, boundary, buf.skip(2), ext, max_header_bytes, max_body_bytes);
                } else {
                    lemma_run_extends(Phase::Boundary { pos: 0 }, boundary, buf, ext, max_header_bytes, max_body_bytes);
                }
            } else if buf.len() == 1 && buf[0] != 13 {
                assert(big[0] == buf[0]);
                if big.len() >= 2 {
                    assert(step(Phase::Newlines, boundary, big, max_header_bytes, max_body_bytes) == Step::Continue(Phase::Boundary { pos: 0 }, big));
                }
                lemma_run_extends(Phase::Boundary { pos: 0 }, boundary, buf, ext, max_header_bytes, max_body_bytes);
            } else {
                assert(buf + ext =~= big);
            }
        },
        Phase::Boundary { pos } => {
            let r: int = boundary.len() - pos;
            let n: int = if r < buf.len() { r } else { buf.len() as int };
            let big_n: int = if r < big.len() { r } else { big.len() as int };
            let matches_small = buf.take(n) == boundary.subrange(pos as int, pos + n);
            if big.take(big_n) == boundary.subrange(pos as int, pos + big_n) {
                assert forall|j: int| 0 <= j < n implies buf.take(n)[j] == boundary.subrange(pos as int, pos + n)[j] by {
                    assert(big.take(big_n)[j] == boundary.subrange(pos as int, pos + big_n)[j]);
                }
                assert(buf.take(n) =~= boundary.subrange(pos as int, pos + n));
            }
            if matches_small {
                if pos + n < boundary.len() {
                    // All of `buf` matched; the rest of the line is to come in `ext`.
                    let n2: int = if r - n < ext.len() { r - n } else { ext.len() as int };
                    assert(big_n == n + n2);
                    assert(buf.skip(n) =~= Seq::<u8>::empty());
                    assert(Seq::<u8>::empty() + ext =~= ext);
                    let line_big = boundary.subrange(pos as int, pos + big_n);
                    let line_ext = boundary.subrange(pos + n, pos + n + n2);
                    assert(big.take(big_n) == line_big <==> ext.take(n2) == line_ext) by {
                        if big.take(big_n) == line_big {
                            assert forall|j: int| 0 <= j < n2 implies ext.take(n2)[j] == line_ext[j] by {
                                assert(big.take(big_n)[n + j] == line_big[n + j]);
                            }
                            assert(ext.take(n2) =~= line_ext);
                        }
                        if ext.take(n2) == line_ext {
                            assert forall|j: int| 0 <= j < big_n implies big.take(big_n)[j] == line_big[j] by {
                                if j < n {
                                    assert(buf.take(n)[j] == boundary.subrange(pos as int, pos + n)[j]);
                                } else {
                                    assert(ext.take(n2)[j - n] == line_ext[j - n]);
                                }
                            }
                            assert(big.take(big_n) =~= line_big);
                        }
                    }
                    assert(big.skip(big_n) =~= ext.skip(n2));
                } else {
                    // The whole line is in `buf`.
                    assert(big_n == n);
                    assert(big.take(n) =~= buf.take(n));
                    assert(big.skip(n) =~= buf.skip(n) + ext);
                    lemma_run_extends(Phase::Headers, boundary, buf.skip(n), ext, max_header_bytes, max_body_bytes);
                }
            }
        },
        Phase::Headers => {
            assert(httparse_reads_prefix(buf, ext));
            match httparse_headers(buf, MAX_HEADERS as nat) {
                ParsedHeaders::Invalid { .. } => {},
                ParsedHeaders::Partial => {},
                ParsedHeaders::Complete { len, pairs } => {
                    assert(big.skip(len as int) =~= buf.skip(len as int) + ext);
                    match headers_from_pairs(pairs) {
                        Err(_) => {},
                        Ok(headers) => {
                            match declared_body_len(headers) {
                                Err(_) => {},
                                Ok(body_len) => {
                                    if !(body_len is Some && body_len->0 > max_body_bytes) {
                                        lemma_run_extends(
                                            Phase::Body { headers, items: items_of_pairs(pairs), body_len },
                                            boundary,
                                            buf.skip(len as int),
                                            ext,
                                            max_header_bytes,
                                            max_body_bytes,
                                        );
                                    }
                                },
                            }
                        },
                    }
                },
            }
        },
        Phase::Body { body_len, .. } => match body_len {
            Some(len) => {
                if buf.len() >= len {
                    assert(big.take(len as int) =~= buf.take(len as int));
                    assert(big.skip(len as int) =~= buf.skip(len as int) + ext);
                }
            },
            None => {
                lemma_first_occurrence_occurs(buf, boundary, 0);
                if first_occurrence(buf, boundary) is Some {
                    lemma_first_occurrence_extends(buf, boundary, ext, 0);
                    let len = first_occurrence(buf, boundary)->0;
                    assert(big.take(len as int) =~= buf.take(len as int));
                    assert(big.skip(len as int) =~= buf.skip(len as int) + ext);
                }
            },
        },
        Phase::Done => {},
    }
}

} // verus!

verus! {

/// Whether a call that reports a part, going from (`phase`, `buf`) to
/// (`next`, `rest`), brings the parser closer to the end of its input: it
/// consumes bytes, or it consumes none (an empty body) and goes from a header
/// block or a body to between parts.
pub open spec fn part_progresses(phase: Phase, buf: Seq<u8>, next: Phase, rest: Seq<u8>) -> bool {
    &&& !(phase is Done)
    &&& rest.len() <= buf.len()
    &&& rest.len() == buf.len() ==> (phase is Headers || phase is Body) && next is Newlines
}

/// How far a phase is from between parts, for a call that consumes nothing.
pub open spec fn part_weight(phase: Phase) -> nat {
    if phase is Headers || phase is Body { 1 } else { 0 }
}

/// What a call of the parser leaves: a phase that fits the boundary line; a
/// reported part brings the parser closer to the end of its input (and a
/// finished parser reports none); a call that needs input leaves no more bytes
/// than it had.
pub proof fn lemma_run_shape(phase: Phase, boundary: Seq<u8>, buf: Seq<u8>, max_header_bytes: nat, max_body_bytes: nat)
    requires
        boundary.len() >= 1,
        phase_wf(phase, boundary.len()),
    ensures
        ({
            let (next, rest, emit) = run(phase, boundary, buf, max_header_bytes, max_body_bytes);
            &&& phase_wf(next, boundary.len())
            &&& emit is Part ==> part_progresses(phase, buf, next, rest)
            &&& emit is Pending ==> rest.len() <= buf.len()
        }),
    decreases buf.len(), rank(phase),
{
    lemma_first_occurrence_occurs(buf, boundary, 0);
    match step(phase, boundary, buf, max_header_bytes, max_body_bytes) {
        Step::Stop(..) => {},
        Step::Continue(next, next_buf) => {
            assert(progresses(phase, buf, next, next_buf));
            lemma_run_shape(next, boundary, next_buf, max_header_bytes, max_body_bytes);
        },
    }
}

/// What polling the parser until it needs input or the stream ends gives: the
/// phase and buffer it is left with, what it reported, and whether the stream
/// ended. After a failure the parser is finished, so the stream ends there.
pub open spec fn drain(phase: Phase, boundary: Seq<u8>, buf: Seq<u8>, max_header_bytes: nat, max_body_bytes: nat) -> (Phase, Seq<u8>, Seq<Emit>, bool)
    decreases (if phase is Done { 0nat } else { 1nat }), buf.len(), part_weight(phase),
{
    let (next, rest, emit) = run(phase, boundary, buf, max_header_bytes, max_body_bytes);
    match emit {
        Emit::Pending => (next, rest, Seq::empty(), false),
        Emit::Finished => (next, rest, Seq::empty(), true),
        Emit::Failed(_) => (Phase::Done, rest, seq![emit], true),
        Emit::Part(_) => {
            // A part always brings the parser closer to the end of its input.
            if part_progresses(phase, buf, next, rest) {
                let (last, left, emits, ended) = drain(next, boundary, rest, max_header_bytes, max_body_bytes);
                (last, left, seq![emit] + emits, ended)
            } else {
                (next, rest, seq![emit], false)
            }
        },
    }
}

/// What the parser reports when the input arrives as `chunks`, one after the
/// other, with `buf` already buffered: after each chunk it is polled until it
/// needs input or the stream ends; after the last, the end of the input is a
/// failure unless the parser stands between parts.
pub open spec fn feed(
    phase: Phase,
    boundary: Seq<u8>,
    buf: Seq<u8>,
    chunks: Seq<Seq<u8>>,
    max_header_bytes: nat,
    max_body_bytes: nat,
) -> Seq<Emit>
    decreases chunks.len(),
{
    let (next, rest, emits, ended) = drain(phase, boundary, buf, max_header_bytes, max_body_bytes);
    if ended {
        emits
    } else if chunks.len() == 0 {
        if next is Newlines {
            emits
        } else {
            emits.push(Emit::Failed(Failure::MidPartEof))
        }
    } else {
        emits + feed(next, boundary, rest + chunks[0], chunks.skip(1), max_header_bytes, max_body_bytes)
    }
}

proof fn lemma_drain_shape(phase: Phase, boundary: Seq<u8>, buf: Seq<u8>, max_header_bytes: nat, max_body_bytes: nat)
    requires
        boundary.len() >= 1,
        phase_wf(phase, boundary.len()),
    ensures
        ({
            let (last, left, emits, ended) = drain(phase, boundary, buf, max_header_bytes, max_body_bytes);
            !ended ==> phase_wf(last, boundary.len()) && left.len() <= buf.len()
        }),
    decreases (if phase is Done { 0nat } else { 1nat }), buf.len(), part_weight(phase),
{
    lemma_run_shape(phase, boundary, buf, max_header_bytes, max_body_bytes);
    let (next, rest, emit) = run(phase, boundary, buf, max_header_bytes, max_body_bytes);
    if emit is Part && part_progresses(phase, buf, next, rest) {
        lemma_drain_shape(next, boundary, rest, max_header_bytes, max_body_bytes);
    }
}

/// Polling after `buf` and then after `ext` reports what polling after both
/// at once reports.
proof fn lemma_drain_extends(
    phase: Phase,
    boundary: Seq<u8>,
    buf: Seq<u8>,
    ext: Seq<u8>,
    max_header_bytes: nat,
    max_body_bytes: nat,
)
    requires
        boundary.len() >= 1,
        phase_wf(phase, boundary.len()),
        httparse_reads_prefixes(),
        buf.len() + ext.len() < max_header_bytes,
    ensures
        ({
            let (last, left, emits, ended) = drain(phase, boundary, buf, max_header_bytes, max_body_bytes);
            let (last2, left2, emits2, ended2) = drain(phase, boundary, buf + ext, max_header_bytes, max_body_bytes);
            &&& ended ==> ended2 && emits2 == emits
            &&& !ended ==> {
                let (last3, left3, emits3, ended3) = drain(last, boundary, left + ext, max_header_bytes, max_body_bytes);
                &&& emits2 == emits + emits3
                &&& ended2 == ended3
                &&& !ended3 ==> last2 == last3 && left2 == left3
            }
        }),
    decreases (if phase is Done { 0nat } else { 1nat }), buf.len(), part_weight(phase),
{
    lemma_run_extends(phase, boundary, buf, ext, max_header_bytes, max_body_bytes);
    lemma_run_shape(phase, boundary, buf, max_header_bytes, max_body_bytes);
    lemma_run_shape(phase, boundary, buf + ext, max_header_bytes, max_body_bytes);
    let (next, rest, emit) = run(phase, boundary, buf, max_header_bytes, max_body_bytes);
    let whole = run(phase, boundary, buf + ext, max_header_bytes, max_body_bytes);
    match emit {
        Emit::Pending => {
            let again = run(next, boundary, rest + ext, max_header_bytes, max_body_bytes);
            lemma_run_shape(next, boundary, rest + ext, max_header_bytes, max_body_bytes);
            assert(Seq::<Emit>::empty() + drain(next, boundary, rest + ext, max_header_bytes, max_body_bytes).2
                =~= drain(next, boundary, rest + ext, max_header_bytes, max_body_bytes).2);
            if !(whole.2 is Failed) {
                assert(whole == again);
            }
        },
        Emit::Part(_) => {
            assert(part_progresses(phase, buf + ext, next, rest + ext));
            lemma_run_shape(next, boundary, rest, max_header_bytes, max_body_bytes);
            lemma_drain_extends(next, boundary, rest, ext, max_header_bytes, max_body_bytes);
            let (last, left, emits, ended) = drain(next, boundary, rest, max_header_bytes, max_body_bytes);
            if !ended {
                let emits3 = drain(last, boundary, left + ext, max_header_bytes, max_body_bytes).2;
                let emits2 = drain(next, boundary, rest + ext, max_header_bytes, max_body_bytes).2;
                assert(seq![emit] + emits2 =~= (seq![emit] + emits) + emits3);
            }
        },
        Emit::Finished => {},
        Emit::Failed(_) => {},
    }
}

/// How the input is split into chunks does not matter: the parser reports the
/// same parts and failures whether the input arrives in chunks or at once, as
/// long as `httparse` reads header blocks independently of what follows and
/// the whole input stays under the header limit (which is only checked when
/// the parser waits for more of a header block, so splitting can reach it).
pub proof fn lemma_chunking_does_not_matter(
    phase: Phase,
    boundary: Seq<u8>,
    buf: Seq<u8>,
    chunks: Seq<Seq<u8>>,
    max_header_bytes: nat,
    max_body_bytes: nat,
)
    requires
        boundary.len() >= 1,
        phase_wf(phase, boundary.len()),
        httparse_reads_prefixes(),
        buf.len() + chunks.flatten().len() < max_header_bytes,
    ensures
        feed(phase, boundary, buf, chunks, max_header_bytes, max_body_bytes)
            == feed(phase, boundary, buf + chunks.flatten(), Seq::empty(), max_header_bytes, max_body_bytes),
    decreases chunks.len(),
{
    if chunks.len() == 0 {
        assert(buf + chunks.flatten() =~= buf);
    } else {
        let all = chunks.flatten();
        let first = chunks[0];
        let later = chunks.skip(1);
        assert(later =~= chunks.drop_first());
        assert(all =~= first + later.flatten());
        lemma_drain_extends(phase, boundary, buf, all, max_header_bytes, max_body_bytes);
        lemma_drain_shape(phase, boundary, buf, max_header_bytes, max_body_bytes);
        let (next, rest, emits, ended) = drain(phase, boundary, buf, max_header_bytes, max_body_bytes);
        if !ended {
            lemma_chunking_does_not_matter(next, boundary, rest + first, later, max_header_bytes, max_body_bytes);
            assert(rest + first + later.flatten() =~= rest + all);
            let (last3, left3, emits3, ended3) = drain(next, boundary, rest + all, max_header_bytes, max_body_bytes);
            if !ended3 && !(last3 is Newlines) {
                assert((emits + emits3).push(Emit::Failed(Failure::MidPartEof)) =~= emits + emits3.push(Emit::Failed(Failure::MidPartEof)));
            }
        }
    }
}

} // verus!

verus! {

/// Polling the parser on a serialized stream given at once reports its parts in
/// order and leaves the parser between parts, with nothing buffered.
#[verifier::rlimit(30)]
#[verifier::spinoff_prover]
proof fn lemma_drain_serialized(
    boundary: Seq<u8>,
    parts: Seq<PartView>,
    listings: Seq<Seq<(Seq<u8>, Seq<u8>)>>,
    max_header_bytes: nat,
    max_body_bytes: nat,
)
    requires
        !starts_with(boundary, dashes()),
        stream_reads_back(boundary, parts, listings, max_body_bytes),
    ensures
        drain(Phase::Newlines, parser_boundary_line(boundary), serialized_stream(boundary, parts, listings), max_header_bytes, max_body_bytes)
            == (Phase::Newlines, Seq::<u8>::empty(), Seq::new(parts.len(), |i: int| Emit::Part(sent_part(parts[i]))), false),
    decreases parts.len(),
{
    if parts.len() > 0 {
        let tail = parts.skip(1);
        let tail_listings = listings.skip(1);
        let rest = serialized_stream(boundary, tail, tail_listings);
        assert(parts.skip(0int + 1) == tail);
        lemma_parse_serialized_part(boundary, parts[0], listings[0], rest, max_header_bytes, max_body_bytes);
        let all = serialized_stream(boundary, parts, listings);
        assert(all == serialized_part(boundary, listings[0], parts[0].body) + rest);
        assert(rest.len() < all.len()) by {
            assert(serialized_part(boundary, listings[0], parts[0].body).len() > 0);
        }
        assert(stream_reads_back(boundary, tail, tail_listings, max_body_bytes)) by {
            assert forall|i: int| 0 <= i < tail.len() implies {
                &&& (#[trigger] tail[i]).body.len() <= max_body_bytes
                &&& tail[i].body.len() <= usize::MAX
                &&& reads_back(tail[i], tail_listings[i], serialized_stream(boundary, tail.skip(i + 1), tail_listings.skip(i + 1)))
            } by {
                assert(tail[i] == parts[i + 1]);
                assert(tail_listings[i] == listings[i + 1]);
                assert(tail.skip(i + 1) =~= parts.skip(i + 2));
                assert(tail_listings.skip(i + 1) =~= listings.skip(i + 2));
            }
        }
        lemma_drain_serialized(boundary, tail, tail_listings, max_header_bytes, max_body_bytes);
        let expected = Seq::new(parts.len(), |i: int| Emit::Part(sent_part(parts[i])));
        let expected_tail = Seq::new(tail.len(), |i: int| Emit::Part(sent_part(tail[i])));
        assert(expected =~= seq![Emit::Part(sent_part(parts[0]))] + expected_tail);
    } else {
        assert(serialized_stream(boundary, parts, listings) == Seq::<u8>::empty());
    }
}

/// Round trip, whatever the chunks: what the serializer sends for a sequence
/// of parts, handed to the parser in any chunks and then ended, comes back as
/// the same parts, each with its `Content-Length` set, and the stream ends
/// cleanly. It holds under the conditions of [`lemma_roundtrip`], as long as
/// `httparse` reads header blocks independently of what follows and the whole
/// stream stays under the header limit.
pub proof fn lemma_roundtrip_chunked(
    boundary: Seq<u8>,
    parts: Seq<PartView>,
    listings: Seq<Seq<(Seq<u8>, Seq<u8>)>>,
    chunks: Seq<Seq<u8>>,
    max_header_bytes: nat,
    max_body_bytes: nat,
)
    requires
        !starts_with(boundary, dashes()),
        stream_reads_back(boundary, parts, listings, max_body_bytes),
        chunks.flatten() == serialized_stream(boundary, parts, listings),
        httparse_reads_prefixes(),
        chunks.flatten().len() < max_header_bytes,
    ensures
        feed(Phase::Newlines, parser_boundary_line(boundary), Seq::empty(), chunks, max_header_bytes, max_body_bytes)
            == Seq::new(parts.len(), |i: int| Emit::Part(sent_part(parts[i]))),
{
    let line = parser_boundary_line(boundary);
    assert(line.len() >= 1);
    lemma_chunking_does_not_matter(Phase::Newlines, line, Seq::empty(), chunks, max_header_bytes, max_body_bytes);
    assert(Seq::<u8>::empty() + chunks.flatten() =~= chunks.flatten());
    lemma_drain_serialized(boundary, parts, listings, max_header_bytes, max_body_bytes);
}

} // verus!

verus! {

/// Bytes leave the buffer only from the front: what a call leaves buffered is
/// what it was given, less the bytes it consumed at the front. A reported part
/// has as body the last of the bytes consumed, and leaves the parser between
/// parts.
pub proof fn lemma_consumes_from_front(phase: Phase, boundary: Seq<u8>, buf: Seq<u8>, max_header_bytes: nat, max_body_bytes: nat)
    requires
        boundary.len() >= 1,
        phase_wf(phase, boundary.len()),
    ensures
        ({
            let (next, rest, emit) = run(phase, boundary, buf, max_header_bytes, max_body_bytes);
            let used = buf.len() - rest.len();
            &&& rest.len() <= buf.len()
            &&& rest == buf.skip(used)
            &&& emit matches Emit::Part(p) ==> {
                &&& next is Newlines
                &&& p.body.len() <= used
                &&& buf.subrange(used - p.body.len(), used) == p.body
            }
        }),
    decreases buf.len(), rank(phase),
{
    lemma_first_occurrence_occurs(buf, boundary, 0);
    assert(buf.skip(0) =~= buf);
    match step(phase, boundary, buf, max_header_bytes, max_body_bytes) {
        Step::Stop(next, rest, emit) => {
            if let Emit::Part(p) = emit {
                let used = buf.len() - rest.len();
                assert(buf.subrange(used - p.body.len(), used) =~= p.body);
            }
            assert(rest =~= buf.skip(buf.len() - rest.len()));
        },
        Step::Continue(next, next_buf) => {
            // Every continuing step drops bytes from the front.
            let j: int = match phase {
                Phase::Newlines => if next is Newlines { 2 } else { 0 },
                Phase::Boundary { pos } => if boundary.len() - pos < buf.len() { boundary.len() - pos } else { buf.len() as int },
                Phase::Headers => match httparse_headers(buf, MAX_HEADERS as nat) {
                    ParsedHeaders::Complete { len, .. } => len as int,
                    _ => 0,
                },
                _ => 0,
            };
            assert(0 <= j <= buf.len());
            assert(next_buf =~= buf.skip(j));
            if progresses(phase, buf, next, next_buf) {
                lemma_consumes_from_front(next, boundary, next_buf, max_header_bytes, max_body_bytes);
                let (last, rest, emit) = run(next, boundary, next_buf, max_header_bytes, max_body_bytes);
                let k = buf.len() - next_buf.len();
                assert(next_buf =~= buf.skip(k));
                assert(rest =~= buf.skip(buf.len() - rest.len()));
                if let Emit::Part(p) = emit {
                    let used = buf.len() - rest.len();
                    let used2 = next_buf.len() - rest.len();
                    assert(buf.subrange(used - p.body.len(), used) =~= next_buf.subrange(used2 - p.body.len(), used2));
                }
            } else {
                assert(next_buf =~= buf.skip(buf.len() - next_buf.len()));
            }
        },
    }
}

} // verus!

verus! {

// ---- `\r\n` pairs between parts ----

/// `n` pairs of `\r\n`.
pub open spec fn crlfs(n: nat) -> Seq<u8>
    decreases n,
{
    if n == 0 {
        Seq::empty()
    } else {
        crlf() + crlfs((n - 1) as nat)
    }
}

/// Between parts, any number of `\r\n` pairs change nothing of what a call of
/// the parser does.
pub proof fn lemma_many_newlines_skipped(boundary: Seq<u8>, buf: Seq<u8>, n: nat, max_header_bytes: nat, max_body_bytes: nat)
    ensures
        run(Phase::Newlines, boundary, crlfs(n) + buf, max_header_bytes, max_body_bytes)
            == run(Phase::Newlines, boundary, buf, max_header_bytes, max_body_bytes),
    decreases n,
{
    if n > 0 {
        let fewer = crlfs((n - 1) as nat) + buf;
        assert(crlfs(n) + buf =~= crlf() + fewer);
        lemma_newlines_skipped(boundary, fewer, max_header_bytes, max_body_bytes);
        lemma_many_newlines_skipped(boundary, buf, (n - 1) as nat, max_header_bytes, max_body_bytes);
    } else {
        assert(crlfs(n) + buf =~= buf);
    }
}

/// The bytes the serializer sends for `parts` (the header block of each
/// listing the pairs in `listings` at the same index), with `pads[i]` pairs of
/// `\r\n` before the part at index `i`, and the last of `pads` after the last part.
pub open spec fn padded_stream(
    boundary: Seq<u8>,
    parts: Seq<PartView>,
    listings: Seq<Seq<(Seq<u8>, Seq<u8>)>>,
    pads: Seq<nat>,
) -> Seq<u8>
    decreases parts.len(),
{
    if parts.len() == 0 || listings.len() == 0 || pads.len() == 0 {
        if pads.len() > 0 { crlfs(pads[0]) } else { Seq::empty() }
    } else {
        crlfs(pads[0]) + serialized_part(boundary, listings[0], parts[0].body)
            + padded_stream(boundary, parts.skip(1), listings.skip(1), pads.skip(1))
    }
}

/// Whether each part of a padded serialized stream reads back: its body is
/// within the limit, and its header block reads as the pairs it lists.
pub open spec fn padded_reads_back(
    boundary: Seq<u8>,
    parts: Seq<PartView>,
    listings: Seq<Seq<(Seq<u8>, Seq<u8>)>>,
    pads: Seq<nat>,
    max_body_bytes: nat,
) -> bool {
    &&& parts.len() == listings.len()
    &&& pads.len() == parts.len() + 1
    &&& forall|i: int| 0 <= i < parts.len() ==> {
        &&& (#[trigger] parts[i]).body.len() <= max_body_bytes
        &&& parts[i].body.len() <= usize::MAX
        &&& reads_back(parts[i], listings[i], padded_stream(boundary, parts.skip(i + 1), listings.skip(i + 1), pads.skip(i + 1)))
    }
}

/// A padded stream that reads back is its first part, which reads back, then
/// a padded stream of the other parts, which reads back too.
proof fn lemma_padded_split(
    boundary: Seq<u8>,
    parts: Seq<PartView>,
    listings: Seq<Seq<(Seq<u8>, Seq<u8>)>>,
    pads: Seq<nat>,
    max_body_bytes: nat,
)
    requires
        padded_reads_back(boundary, parts, listings, pads, max_body_bytes),
        parts.len() > 0,
    ensures
        ({
            let rest = padded_stream(boundary, parts.skip(1), listings.skip(1), pads.skip(1));
            &&& parts[0].body.len() <= max_body_bytes
            &&& parts[0].body.len() <= usize::MAX
            &&& reads_back(parts[0], listings[0], rest)
            &&& padded_stream(boundary, parts, listings, pads)
                == crlfs(pads[0]) + (serialized_part(boundary, listings[0], parts[0].body) + rest)
            &&& padded_reads_back(boundary, parts.skip(1), listings.skip(1), pads.skip(1), max_body_bytes)
            &&& pads.skip(1).last() == pads.last()
        }),
{
    let tail = parts.skip(1);
    let tail_listings = listings.skip(1);
    let tail_pads = pads.skip(1);
    let rest = padded_stream(boundary, tail, tail_listings, tail_pads);
    assert(parts[0] == parts[0]);
    assert(parts.skip(0int + 1) == tail);
    assert(pads.skip(0int + 1) == tail_pads);
    assert(padded_stream(boundary, parts, listings, pads)
        =~= crlfs(pads[0]) + (serialized_part(boundary, listings[0], parts[0].body) + rest));
    assert forall|i: int| 0 <= i < tail.len() implies {
        &&& (#[trigger] tail[i]).body.len() <= max_body_bytes
        &&& tail[i].body.len() <= usize::MAX
        &&& reads_back(tail[i], tail_listings[i], padded_stream(boundary, tail.skip(i + 1), tail_listings.skip(i + 1), tail_pads.skip(i + 1)))
    } by {
        assert(tail[i] == parts[i + 1]);
        assert(tail_listings[i] == listings[i + 1]);
        assert(tail.skip(i + 1) =~= parts.skip(i + 2));
        assert(tail_listings.skip(i + 1) =~= listings.skip(i + 2));
        assert(tail_pads.skip(i + 1) =~= pads.skip(i + 2));
    }
}

/// Any number of `\r\n` pairs may come before each part of a stream and after
/// the last: the parser gives back the same parts as without them, each with
/// its `Content-Length` set, one per call, and then stands between parts with
/// only the last pairs buffered, which it consumes while it waits for input,
/// so that the end of input ends the stream cleanly. This holds under the
/// conditions of [`lemma_roundtrip`].
#[verifier::rlimit(30)]
#[verifier::spinoff_prover]
pub proof fn lemma_newlines_between_parts(
    boundary: Seq<u8>,
    parts: Seq<PartView>,
    listings: Seq<Seq<(Seq<u8>, Seq<u8>)>>,
    pads: Seq<nat>,
    max_header_bytes: nat,
    max_body_bytes: nat,
)
    requires
        !starts_with(boundary, dashes()),
        padded_reads_back(boundary, parts, listings, pads, max_body_bytes),
    ensures
        polls(
            Phase::Newlines,
            parser_boundary_line(boundary),
            padded_stream(boundary, parts, listings, pads),
            max_header_bytes,
            max_body_bytes,
            parts.len(),
        ) == (Phase::Newlines, crlfs(pads.last()), Seq::new(parts.len(), |i: int| Emit::Part(sent_part(parts[i])))),
        run(Phase::Newlines, parser_boundary_line(boundary), crlfs(pads.last()), max_header_bytes, max_body_bytes)
            == (Phase::Newlines, Seq::<u8>::empty(), Emit::Pending),
    decreases parts.len(),
{
    let line = parser_boundary_line(boundary);
    if parts.len() > 0 {
        let tail = parts.skip(1);
        let tail_listings = listings.skip(1);
        let tail_pads = pads.skip(1);
        let rest = padded_stream(boundary, tail, tail_listings, tail_pads);
        let part_bytes = serialized_part(boundary, listings[0], parts[0].body);
        lemma_padded_split(boundary, parts, listings, pads, max_body_bytes);
        lemma_parse_serialized_part(boundary, parts[0], listings[0], rest, max_header_bytes, max_body_bytes);
        lemma_many_newlines_skipped(line, part_bytes + rest, pads[0], max_header_bytes, max_body_bytes);
        lemma_newlines_between_parts(boundary, tail, tail_listings, tail_pads, max_header_bytes, max_body_bytes);
        let expected = Seq::new(parts.len(), |i: int| Emit::Part(sent_part(parts[i])));
        let expected_tail = Seq::new(tail.len(), |i: int| Emit::Part(sent_part(tail[i])));
        assert(expected =~= seq![Emit::Part(sent_part(parts[0]))] + expected_tail);
    } else {
        assert(padded_stream(boundary, parts, listings, pads) == crlfs(pads[0]));
        assert(pads.last() == pads[0]);
        lemma_many_newlines_skipped(line, Seq::<u8>::empty(), pads[0], max_header_bytes, max_body_bytes);
        assert(crlfs(pads[0]) + Seq::<u8>::empty() =~= crlfs(pads[0]));
    }
}

} // verus!

verus! {

// ---- the bytes on the wire, stated byte by byte ----

/// A header block is, for each (name, value) pair in turn, the name's bytes,
/// `": "`, the value's bytes as they are, and `"\r\n"`; then an empty line.
pub proof fn lemma_header_block_bytes(pairs: Seq<(Seq<u8>, Seq<u8>)>, name: Seq<u8>, value: Seq<u8>)
    ensures
        crate::wire::header_lines(Seq::empty()) == Seq::<u8>::empty(),
        crate::wire::header_lines(pairs.push((name, value)))
            == crate::wire::header_lines(pairs) + name + seq![58u8, 32u8] + value + seq![13u8, 10u8],
        header_block(pairs) == crate::wire::header_lines(pairs) + seq![13u8, 10u8],
        header_block(seq![(name, value)]) == name + seq![58u8, 32u8] + value + seq![13u8, 10u8, 13u8, 10u8],
{
    let p = pairs.push((name, value));
    assert(p.drop_last() =~= pairs);
    let one = seq![(name, value)];
    assert(one.drop_last() =~= Seq::<(Seq<u8>, Seq<u8>)>::empty());
    assert(one.last() == (name, value));
    assert(crate::wire::header_lines(one.drop_last()) == Seq::<u8>::empty());
    assert(crate::wire::header_line((name, value)) =~= name + seq![58u8, 32u8] + value + seq![13u8, 10u8]);
    assert(crate::wire::header_lines(one) =~= name + seq![58u8, 32u8] + value + seq![13u8, 10u8]);
    assert(header_block(one) =~= name + seq![58u8, 32u8] + value + seq![13u8, 10u8, 13u8, 10u8]);
    assert(crate::wire::header_lines(p)
        =~= crate::wire::header_lines(pairs) + name + seq![58u8, 32u8] + value + seq![13u8, 10u8]);
}

/// The boundary line for a `boundary` parameter holds the parameter's bytes as
/// they are: the serializer writes `--`, the bytes, `\r\n`; the parser looks
/// for the same line, or for the bytes and `\r\n` when they already start
/// with `--`.
pub proof fn lemma_boundary_line_bytes(boundary: Seq<u8>)
    ensures
        serializer_boundary_line(boundary) == seq![45u8, 45u8] + boundary + seq![13u8, 10u8],
        !(boundary.len() >= 2 && boundary[0] == 45 && boundary[1] == 45)
            ==> parser_boundary_line(boundary) == seq![45u8, 45u8] + boundary + seq![13u8, 10u8],
        (boundary.len() >= 2 && boundary[0] == 45 && boundary[1] == 45)
            ==> parser_boundary_line(boundary) == boundary + seq![13u8, 10u8],
{
    if boundary.len() >= 2 {
        if boundary[0] == 45 && boundary[1] == 45 {
            assert(boundary.subrange(0, 2) =~= dashes());
        } else {
            assert(boundary.subrange(0, 2)[0] == boundary[0] && boundary.subrange(0, 2)[1] == boundary[1]);
        }
    }
    assert(serializer_boundary_line(boundary) =~= seq![45u8, 45u8] + boundary + seq![13u8, 10u8]);
    if !(boundary.len() >= 2 && boundary[0] == 45 && boundary[1] == 45) {
        assert(parser_boundary_line(boundary) =~= seq![45u8, 45u8] + boundary + seq![13u8, 10u8]);
    } else {
        assert(parser_boundary_line(boundary) =~= boundary + seq![13u8, 10u8]);
    }
}

/// The canonical form of a valid header name has the same length, with each
/// upper-case ASCII letter lower-cased and every other byte kept.
pub proof fn lemma_canonical_name_bytes(name: Seq<u8>)
    requires
        is_header_name(name),
    ensures
        header_name_canonical(name).len() == name.len(),
        forall|i: int| 0 <= i < name.len() ==> #[trigger] header_name_canonical(name)[i]
            == (if 65 <= name[i] <= 90 { (name[i] + 32) as u8 } else { name[i] }),
{
    assert forall|i: int| 0 <= i < name.len() implies #[trigger] header_name_canonical(name)[i]
        == (if 65 <= name[i] <= 90 { (name[i] + 32) as u8 } else { name[i] }) by {
        assert(crate::wire::header_name_char(name[i]) != 0);
    }
}

// ---- headers rebuilt from a header block, in any letter case ----

/// The pairs of `pairs` whose name is `name`, in order.
pub open spec fn named(pairs: Seq<(Seq<u8>, Seq<u8>)>, name: Seq<u8>) -> Seq<(Seq<u8>, Seq<u8>)> {
    pairs.filter(|p: (Seq<u8>, Seq<u8>)| p.0 == name)
}

/// The values of `pairs`, in order.
pub open spec fn values_in(pairs: Seq<(Seq<u8>, Seq<u8>)>) -> Seq<Seq<u8>> {
    pairs.map_values(|p: (Seq<u8>, Seq<u8>)| p.1)
}

/// `pairs` with every name in canonical form.
pub open spec fn canonical_names(pairs: Seq<(Seq<u8>, Seq<u8>)>) -> Seq<(Seq<u8>, Seq<u8>)> {
    pairs.map_values(|p: (Seq<u8>, Seq<u8>)| (header_name_canonical(p.0), p.1))
}

proof fn lemma_named_push(pairs: Seq<(Seq<u8>, Seq<u8>)>, p: (Seq<u8>, Seq<u8>), name: Seq<u8>)
    ensures
        named(pairs.push(p), name) == (if p.0 == name { named(pairs, name).push(p) } else { named(pairs, name) }),
{
    reveal(Seq::filter);
    assert(pairs.push(p).drop_last() =~= pairs);
}

proof fn lemma_named_empty(name: Seq<u8>)
    ensures
        named(Seq::empty(), name) == Seq::<(Seq<u8>, Seq<u8>)>::empty(),
{
    reveal(Seq::filter);
}

/// The headers made from valid (name, value) pairs, names in any letter case:
/// a canonical name is held exactly when some pair's name has that canonical
/// form, and it holds the values of all such pairs, in the order listed.
pub proof fn lemma_headers_from_valid_pairs(pairs: Seq<(Seq<u8>, Seq<u8>)>)
    requires
        forall|i: int| 0 <= i < pairs.len() ==> is_header_name(#[trigger] pairs[i].0) && is_header_value(pairs[i].1),
    ensures
        headers_from_pairs(pairs) matches Ok(h) && forall|name: Seq<u8>| {
            &&& #[trigger] h.contains_key(name) <==> named(canonical_names(pairs), name).len() > 0
            &&& h.contains_key(name) ==> h[name] == values_in(named(canonical_names(pairs), name))
        },
    decreases pairs.len(),
{
    if pairs.len() == 0 {
        assert forall|name: Seq<u8>| #[trigger] named(canonical_names(pairs), name).len() == 0 by {
            assert(canonical_names(pairs) =~= Seq::empty());
            lemma_named_empty(name);
        }
    } else {
        let init = pairs.drop_last();
        assert forall|i: int| 0 <= i < init.len() implies is_header_name(#[trigger] init[i].0) && is_header_value(init[i].1) by {
            assert(init[i] == pairs[i]);
        }
        lemma_headers_from_valid_pairs(init);
        let (n, v) = pairs.last();
        assert(pairs.last() == pairs[pairs.len() - 1]);
        let cn = header_name_canonical(n);
        assert(canonical_names(pairs) =~= canonical_names(init).push((cn, v)));
        let h0 = headers_from_pairs(init)->Ok_0;
        let h = headers_from_pairs(pairs)->Ok_0;
        assert(h == headers_append(h0, cn, v));
        assert forall|name: Seq<u8>| {
            &&& #[trigger] h.contains_key(name) <==> named(canonical_names(pairs), name).len() > 0
            &&& h.contains_key(name) ==> h[name] == values_in(named(canonical_names(pairs), name))
        } by {
            lemma_named_push(canonical_names(init), (cn, v), name);
            let before = named(canonical_names(init), name);
            if name == cn {
                assert(values_in(before.push((cn, v))) =~= values_in(before).push(v));
                if !h0.contains_key(name) {
                    assert(values_in(before) =~= Seq::<Seq<u8>>::empty());
                }
            }
        }
    }
}

proof fn lemma_named_items_append(items: Seq<(Seq<u8>, Seq<u8>)>, key: Seq<u8>, value: Seq<u8>, name: Seq<u8>)
    ensures
        named(crate::wire::items_append(items, key, value), name)
            == (if key == name { named(items, name).push((key, value)) } else { named(items, name) }),
    decreases items.len(),
{
    if items.len() == 0 || values_named(items, key).len() == 0 || items.last().0 == key {
        lemma_named_push(items, (key, value), name);
    } else {
        let init = items.drop_last();
        let last = items.last();
        lemma_named_items_append(init, key, value, name);
        lemma_named_push(crate::wire::items_append(init, key, value), last, name);
        assert(init.push(last) =~= items);
        lemma_named_push(init, last, name);
    }
}

/// The order a header map built from a header block yields its pairs in keeps,
/// for each canonical name, every pair listed under a name of that canonical
/// form, in the order listed (names in any letter case).
pub proof fn lemma_items_of_pairs_keep_every_value(pairs: Seq<(Seq<u8>, Seq<u8>)>, name: Seq<u8>)
    ensures
        named(items_of_pairs(pairs), name) == named(canonical_names(pairs), name),
    decreases pairs.len(),
{
    if pairs.len() == 0 {
        assert(canonical_names(pairs) =~= Seq::empty());
    } else {
        let init = pairs.drop_last();
        lemma_items_of_pairs_keep_every_value(init, name);
        let (n, v) = pairs.last();
        let cn = header_name_canonical(n);
        assert(canonical_names(pairs) =~= canonical_names(init).push((cn, v)));
        lemma_named_items_append(items_of_pairs(init), cn, v, name);
        lemma_named_push(canonical_names(init), (cn, v), name);
    }
}

} // verus!
