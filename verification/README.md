# weft

An HTTP/2 server over cleartext TCP (h2c, prior knowledge), whose protocol
engine is a library verified with Verus. Every request is answered with
`200`, `content-type: text/plain` and the body `weft\n`.

## Layout

- `src/` — the verified library (crate `weft`):
  - `frame.rs`, `frame/flag.rs` — the frame codec and the streaming frame
    decoder;
  - `hpack/` — HPACK: prefix integers, the static and dynamic tables,
    Huffman coding (with the code of RFC 7541 Appendix B), the header
    block decoder and the encoder;
  - `settings.rs` — SETTINGS parameters, applied and encoded;
  - `stream.rs` — streams and request validation;
  - `conn.rs` — the connection as a state machine: octets in, octets out;
    `conn/limit.rs` — the proof that the limit on concurrent streams holds
    in every state.
- `app/main.rs` — the server: sockets, threads, and the read/write loop
  around `Connection`.
- `tests/` — tests of the library.

## Main properties proved

- Frame headers, HPACK integers and Huffman strings read back as written.
- Frame decoding, and the whole connection, give the same result however
  the received octets are split into reads.
- Each function of the connection is specified by the protocol step it
  takes (`dispatch_spec`, `process_spec`); the flow-control windows stay
  within 2^31 - 1 as long as no error has ended the connection (a window
  update or settings change that passes the limit is an error, and leaves
  the window it widened as it made it).
- A request carried by one HEADERS frame is answered by a header block that
  decodes to `:status: 200`, `content-type: text/plain`,
  `content-length: 5`, then by the body.
- At most 100 streams are ever open or half closed.

## Run

```
weft 127.0.0.1:8080
```
