# multipart-stream

Parser and serializer for `multipart/x-mixed-replace` streams (a sequence of
parts, each a boundary line, a header block with a `Content-Length`, and a
body), as state machines that do no I/O, specified and proved with Verus.

- `src/parser.rs`: the parser. `run` is its specification: what one call of
  `Parser::poll_part` does with the bytes buffered so far.
- `src/serializer.rs`: the serializer, which frames each part and sets its
  `Content-Length`.
- `src/laws.rs`: properties across calls, among them the round trip from the
  serializer through the parser.
- `src/wire.rs`: the byte-level definitions the contracts use.
- `src/outside.rs`: the calls into `bytes`, `http`, `httparse` and `memchr`,
  with the contracts taken on trust.
- `app/`: `futures` stream adapters that poll the input and drive the state
  machines, and an error type with `Display` and `std::error::Error`.
