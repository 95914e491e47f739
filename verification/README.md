# moo_transport

The MOO protocol — an HTTP-like, bidirectional message protocol over TCP or
WebSockets — with its logic verified by Verus.

A frame is a text header section and an optional body:

```text
MOO/1 <VERB> <NAME>
Request-Id: <id>
Header1: Value1
Content-Type: application/json
Content-Length: <bytes>

<body content>
```

## Layout

- `src/` — the verified library.
  - `text.rs`: character classes, decimal numbers, UTF-8 text helpers.
  - `table.rs`: tables keyed by text (headers, pending requests, handlers)
    and their laws.
  - `error.rs`: `MooError` and its constructors.
  - `json.rs`, `buffers.rs`: the calls into `serde_json` and `bytes`, each
    behind a small trusted wrapper whose contract names what it returns.
  - `message.rs`: verbs, bodies, ordered headers and messages.
  - `protocol.rs`: the parser (`MooParser`, with the whole wire grammar as
    spec functions) and the builder (`MooMessageBuilder`, `write_frame`).
  - `roundtrip.rs`: laws relating the two — a parser reads back what the
    builder writes (a JSON body as the value `serde_json` reads from the text
    it wrote), a prefix of a frame waits for more, what follows a frame
    stays buffered, a stream read in any pieces reads as the whole, and a
    receive loop hands over each message of the stream once, in order.
  - `response_stream.rs`: when a stream of responses ends.
  - `connection.rs`: the state of a connection — request ids, pending
    requests, handlers — where each incoming message goes, and what each
    receive (bytes, a close, an error) means.
- `tests/` — scenarios on concrete frames, messages and connections.
- `app/` — the tokio runtime around the library: TCP and WebSocket
  transports, the connection's tasks, request handlers and the response
  `Stream`, the error type with `Display`, and serde on verbs and bodies.
