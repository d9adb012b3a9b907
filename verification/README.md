# sse_parser

A streaming parser for Server-Sent Events, verified with Verus.

- `src/model.rs` defines what a byte stream means, one byte at a time:
  line endings (`\n`, `\r`, `\r\n`), the optional UTF-8 byte order mark,
  and the `data`, `event`, `id` and `retry` fields.
- `src/parser.rs` is the parser. It finds line ends by searching whole chunks
  (`memchr`) and buffers in `SmallVec`s; its contracts state that every call
  does exactly what the model does with the same bytes.
- `src/laws.rs` states properties of the parser as a whole, such as that
  chunk boundaries do not matter.
- `src/buffer.rs` and `src/text.rs` hold the specifications of the outside
  code the parser calls (`smallvec`, `memchr`, `compact_str`, UTF-8
  decoding).
- `app/` holds the WebAssembly bindings (`SseParser`).
