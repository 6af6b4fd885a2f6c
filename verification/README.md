# rjsonparser

A push-based JSON parser and writer, verified with Verus.

The parser receives bytes in pieces (`Parser::receive`), hands events to a
`ContentHandler` as tokens are recognized, keeps the bytes of an incomplete trailing
token for the next piece, and checks at `Parser::close` that the document is complete.
The `Writer` encodes events as JSON text, compact or indented.

Before each event the handler is given the event's position (1-based line and column).
The tokenizer records each event it hands over together with the handler's answer, and
its contract says what follows every answer: an error from the handler stops delivery and
is returned as it is.

## Layout

- `src/grammar.rs`: the specification of the tokenizer: what one token does
  (`spec_step`) and what a run over a byte sequence produces (`spec_run`).
- `src/tokenizer.rs`: the tokenizer, proved to follow `spec_step` and `spec_run`.
- `src/parser.rs`: byte order mark detection, the bytes kept between pieces, document
  length limit, and the end-of-input checks.
- `src/keys.rs`: the FNV-1a key interning table (open addressing, doubling).
- `src/writer.rs`: the writer, with the bytes of every call stated exactly.
- `src/text.rs`, `src/number.rs`, `src/error.rs`, `src/limits.rs`, `src/handler.rs`,
  `src/locator.rs`: UTF-8/UTF-16 text, numbers, errors, limits, the handler interface.
- `src/streaming.rs`: feeding input in two pieces gives the same content as feeding it
  whole; when whitespace is not reported, the very same events, positions included.
- `src/roundtrip.rs`, `src/document.rs`: what the writer writes is read back as the
  events written.
- `src/syntax.rs`: the number and string syntax of RFC 8259, stated on its own, and proved
  to be exactly what the number and string scanners accept.
- `src/acceptance.rs`: the JSON texts of RFC 8259 as a grammar over bytes, and the proof
  that a document received and closed (after an optional UTF-8 byte order mark) is
  accepted exactly when it is such a text (no limits set, whitespace not reported,
  repeated keys allowed).
- `app/`: reading from an `io::Read`, writing to an `io::Write`, and the floating-point
  view of numbers.
