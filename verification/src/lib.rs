//! Streaming parser for Server-Sent Events.
//!
//! Bytes go in as they arrive, in chunks of any size; complete events come
//! out. Lines may end in `\n`, `\r` or `\r\n`, a UTF-8 byte order mark at the
//! start of the stream is skipped, and the `id`, `event`, `data` and `retry`
//! fields are interpreted as the Server-Sent Events format prescribes.
//!
//! `model` states what a stream of bytes means, one byte at a time; the
//! contracts of `Parser` say that it does exactly that, and `laws` states
//! properties that follow, among them that chunk boundaries do not matter.

pub mod buffer;
pub mod error;
pub mod event;
pub mod field_laws;
pub mod laws;
mod lemmas;
pub mod model;
pub mod parser;
pub mod text;

pub use error::ParseError;
pub use event::Event;
pub use parser::{parse_retry, Parser};
pub use text::decode_utf8;
