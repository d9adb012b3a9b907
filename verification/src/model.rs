//! The mathematical model of the parser: its state, the events it emits, and
//! the byte-at-a-time transition that defines what a stream of bytes means.
//!
//! The executable parser scans whole lines at a time; its contracts say that
//! it produces exactly what this byte-level model produces.

use vstd::prelude::*;

verus! {

/// The abstract state of a parser.
#[verifier::ext_equal]
pub struct ParserModel {
    /// Bytes seen so far that may still be the start of a UTF-8 byte order mark.
    pub bom: Seq<u8>,
    /// Whether the byte order mark question has been settled.
    pub bom_resolved: bool,
    /// A `\r` ended the last line, so a following `\n` belongs to it.
    pub skip_lf: bool,
    /// The bytes of the line read so far.
    pub line: Seq<u8>,
    /// The data buffer of the pending event: each `data` value followed by `\n`.
    pub data: Seq<u8>,
    /// The event type of the pending event (empty: none given).
    pub event_type: Seq<char>,
    /// The last event id that was set.
    pub last_event_id: Option<Seq<char>>,
    /// The last reconnection time that was set.
    pub retry: Option<u64>,
}

/// An event as the model sees it.
#[verifier::ext_equal]
pub struct EventModel {
    pub event: Seq<char>,
    pub data: Seq<char>,
    pub id: Option<Seq<char>>,
}

/// What processing some input does: the state afterwards, the events emitted
/// in order, and the error that stopped processing, if any (the name of the
/// field whose value was not UTF-8).
#[verifier::ext_equal]
pub struct Outcome {
    pub state: ParserModel,
    pub events: Seq<EventModel>,
    pub error: Option<Seq<char>>,
}

/// The state of a fresh parser.
pub open spec fn initial_model() -> ParserModel {
    ParserModel {
        bom: Seq::empty(),
        bom_resolved: false,
        skip_lf: false,
        line: Seq::empty(),
        data: Seq::empty(),
        event_type: Seq::empty(),
        last_event_id: None,
        retry: None,
    }
}

pub open spec fn ok_outcome(m: ParserModel) -> Outcome {
    Outcome { state: m, events: Seq::empty(), error: None }
}

pub open spec fn err_outcome(m: ParserModel, field: Seq<char>) -> Outcome {
    Outcome { state: m, events: Seq::empty(), error: Some(field) }
}

/// `first` followed by `second`, where `second` ran from the state `first` left.
pub open spec fn then_outcome(first: Outcome, second: Outcome) -> Outcome {
    Outcome { state: second.state, events: first.events + second.events, error: second.error }
}

/// The decoded text of `bytes`, or `None` where they are not valid UTF-8.
pub open spec fn utf8_text(bytes: Seq<u8>) -> Option<Seq<char>> {
    if vstd::utf8::valid_utf8(bytes) {
        Some(vstd::utf8::decode_utf8(bytes))
    } else {
        None
    }
}

/// `i` is the first position of `b` in `s`.
pub open spec fn is_first_index(s: Seq<u8>, b: u8, i: int) -> bool {
    &&& 0 <= i < s.len()
    &&& s[i] == b
    &&& forall|j: int| 0 <= j < i ==> s[j] != b
}

/// The first position of `b` in `s`, if it occurs.
pub open spec fn first_index(s: Seq<u8>, b: u8) -> Option<int> {
    if exists|i: int| is_first_index(s, b, i) {
        Some(choose|i: int| is_first_index(s, b, i))
    } else {
        None
    }
}

/// The field name of a line: everything before the first colon.
pub open spec fn line_field(line: Seq<u8>) -> Seq<u8> {
    match first_index(line, 0x3a) {
        Some(i) => line.take(i),
        None => line,
    }
}

/// The value of a line: everything after the first colon, less one leading space.
pub open spec fn line_value(line: Seq<u8>) -> Seq<u8> {
    match first_index(line, 0x3a) {
        Some(i) => strip_one_space(line.skip(i + 1)),
        None => Seq::empty(),
    }
}

pub open spec fn strip_one_space(v: Seq<u8>) -> Seq<u8> {
    if v.len() > 0 && v[0] == 0x20 {
        v.drop_first()
    } else {
        v
    }
}

/// The fields that the parser acts on.
#[derive(PartialEq, Eq, Structural, Clone, Copy, Debug)]
pub enum FieldName {
    Data,
    Event,
    Id,
    Retry,
    Other,
}

pub open spec fn field_name(f: Seq<u8>) -> FieldName {
    if f == seq![0x64u8, 0x61, 0x74, 0x61] {
        FieldName::Data
    } else if f == seq![0x65u8, 0x76, 0x65, 0x6e, 0x74] {
        FieldName::Event
    } else if f == seq![0x69u8, 0x64] {
        FieldName::Id
    } else if f == seq![0x72u8, 0x65, 0x74, 0x72, 0x79] {
        FieldName::Retry
    } else {
        FieldName::Other
    }
}

pub open spec fn is_digit(b: u8) -> bool {
    0x30 <= b <= 0x39
}

pub open spec fn all_digits(s: Seq<u8>) -> bool {
    forall|i: int| 0 <= i < s.len() ==> is_digit(#[trigger] s[i])
}

/// The number that a string of decimal digits denotes.
pub open spec fn decimal_value(s: Seq<u8>) -> int
    decreases s.len(),
{
    if s.len() == 0 {
        0
    } else {
        decimal_value(s.drop_last()) * 10 + (s.last() - 0x30)
    }
}

/// The reconnection time that a `retry` value sets: a non-empty string of
/// ASCII digits whose value fits in a `u64`.
pub open spec fn retry_value(s: Seq<u8>) -> Option<u64> {
    if s.len() > 0 && all_digits(s) && decimal_value(s) <= u64::MAX {
        Some(decimal_value(s) as u64)
    } else {
        None
    }
}

/// Emit the pending event, if data was given.
#[verifier::opaque]
pub open spec fn dispatch_outcome(m: ParserModel) -> Outcome {
    if m.data.len() == 0 {
        ok_outcome(ParserModel { event_type: Seq::empty(), ..m })
    } else {
        let d = if m.data.last() == 0x0a {
            m.data.drop_last()
        } else {
            m.data
        };
        match utf8_text(d) {
            None => err_outcome(m, "data"@),
            Some(text) => {
                let ev = EventModel {
                    event: if m.event_type.len() == 0 {
                        "message"@
                    } else {
                        m.event_type
                    },
                    data: text,
                    id: m.last_event_id,
                };
                Outcome {
                    state: ParserModel { event_type: Seq::empty(), data: Seq::empty(), ..m },
                    events: seq![ev],
                    error: None,
                }
            },
        }
    }
}

/// Process one complete line (without its terminator).
#[verifier::opaque]
pub open spec fn line_outcome(m: ParserModel, line: Seq<u8>) -> Outcome {
    if line.len() == 0 {
        dispatch_outcome(m)
    } else if line[0] == 0x3a {
        ok_outcome(m)
    } else {
        let value = line_value(line);
        match field_name(line_field(line)) {
            FieldName::Data => ok_outcome(
                ParserModel { data: m.data + value + seq![0x0au8], ..m },
            ),
            FieldName::Event => match utf8_text(value) {
                Some(t) => ok_outcome(ParserModel { event_type: t, ..m }),
                None => err_outcome(m, "event"@),
            },
            FieldName::Id => if value.contains(0u8) {
                ok_outcome(m)
            } else {
                match utf8_text(value) {
                    Some(t) => ok_outcome(ParserModel { last_event_id: Some(t), ..m }),
                    None => err_outcome(m, "id"@),
                }
            },
            FieldName::Retry => match retry_value(value) {
                Some(r) => ok_outcome(ParserModel { retry: Some(r), ..m }),
                None => ok_outcome(m),
            },
            FieldName::Other => ok_outcome(m),
        }
    }
}

/// Process the line held in the line buffer; the buffer is left empty.
pub open spec fn pending_line_outcome(m: ParserModel) -> Outcome {
    line_outcome(ParserModel { line: Seq::empty(), ..m }, m.line)
}

/// `s` holds no line terminator.
pub open spec fn no_terminator(s: Seq<u8>) -> bool {
    forall|i: int| 0 <= i < s.len() ==> #[trigger] s[i] != 0x0a && s[i] != 0x0d
}

/// One byte of the stream, after the byte order mark has been dealt with.
pub open spec fn stream_byte_outcome(m: ParserModel, b: u8) -> Outcome {
    if m.skip_lf && b == 0x0a {
        ok_outcome(ParserModel { skip_lf: false, ..m })
    } else {
        let m1 = ParserModel { skip_lf: false, ..m };
        if b == 0x0a {
            pending_line_outcome(m1)
        } else if b == 0x0d {
            let o = pending_line_outcome(m1);
            if o.error is None {
                Outcome { state: ParserModel { skip_lf: true, ..o.state }, ..o }
            } else {
                o
            }
        } else {
            ok_outcome(ParserModel { line: m1.line.push(b), ..m1 })
        }
    }
}

/// The stream bytes `bytes`, one at a time, stopping at the first error.
pub open spec fn stream_outcome(m: ParserModel, bytes: Seq<u8>) -> Outcome
    decreases bytes.len(),
{
    if bytes.len() == 0 {
        ok_outcome(m)
    } else {
        let o = stream_outcome(m, bytes.drop_last());
        if o.error is Some {
            o
        } else {
            then_outcome(o, stream_byte_outcome(o.state, bytes.last()))
        }
    }
}

/// The UTF-8 byte order mark.
pub open spec fn utf8_bom() -> Seq<u8> {
    seq![0xEFu8, 0xBB, 0xBF]
}

/// `s` could still grow into the byte order mark.
pub open spec fn is_bom_prefix(s: Seq<u8>) -> bool {
    s.len() <= 3 && s == utf8_bom().take(s.len() as int)
}

/// Give up looking for a byte order mark: the bytes held back are stream bytes.
pub open spec fn flush_bom_outcome(m: ParserModel) -> Outcome {
    if m.bom_resolved {
        ok_outcome(m)
    } else {
        stream_outcome(ParserModel { bom: Seq::empty(), bom_resolved: true, ..m }, m.bom)
    }
}

/// One byte while the byte order mark is not settled.
pub open spec fn bom_byte_outcome(m: ParserModel, b: u8) -> Outcome {
    let buf = m.bom.push(b);
    if buf == utf8_bom() {
        ok_outcome(ParserModel { bom: Seq::empty(), bom_resolved: true, ..m })
    } else if is_bom_prefix(buf) {
        ok_outcome(ParserModel { bom: buf, ..m })
    } else {
        flush_bom_outcome(ParserModel { bom: buf, ..m })
    }
}

/// One input byte.
pub open spec fn feed_byte_outcome(m: ParserModel, b: u8) -> Outcome {
    if !m.bom_resolved {
        bom_byte_outcome(m, b)
    } else {
        stream_byte_outcome(m, b)
    }
}

/// The input bytes `bytes`, one at a time, stopping at the first error:
/// what feeding `bytes` to a parser in state `m` does.
pub open spec fn feed_outcome(m: ParserModel, bytes: Seq<u8>) -> Outcome
    decreases bytes.len(),
{
    if bytes.len() == 0 {
        ok_outcome(m)
    } else {
        let o = feed_outcome(m, bytes.drop_last());
        if o.error is Some {
            o
        } else {
            then_outcome(o, feed_byte_outcome(o.state, bytes.last()))
        }
    }
}

/// End of input: flush the byte order mark buffer, process an unterminated
/// line and emit the pending event.
pub open spec fn finish_outcome(m: ParserModel) -> Outcome {
    let o1 = flush_bom_outcome(m);
    if o1.error is Some {
        o1
    } else {
        let o2 = if o1.state.line.len() > 0 {
            pending_line_outcome(o1.state)
        } else {
            ok_outcome(o1.state)
        };
        if o2.error is Some {
            then_outcome(o1, o2)
        } else {
            then_outcome(
                then_outcome(o1, o2),
                dispatch_outcome(ParserModel { skip_lf: false, ..o2.state }),
            )
        }
    }
}

/// `s` with its line endings made uniform: each `\r\n` pair, and each
/// other `\r`, replaced by `\n` (the pairs are those that a left-to-right
/// reading finds).
pub open spec fn normalize_line_endings(s: Seq<u8>) -> Seq<u8>
    decreases s.len(),
{
    if s.len() == 0 {
        s
    } else if s.last() == 0x0a && s.len() >= 2 && s[s.len() - 2] == 0x0d {
        normalize_line_endings(s.drop_last().drop_last()).push(0x0a)
    } else if s.last() == 0x0d {
        normalize_line_endings(s.drop_last()).push(0x0a)
    } else {
        normalize_line_endings(s.drop_last()).push(s.last())
    }
}

/// `s` holds no character `c`.
pub open spec fn lacks_char(s: Seq<char>, c: char) -> bool {
    forall|i: int| 0 <= i < s.len() ==> s[i] != c
}

/// An id as the parser stores it: no NUL, carriage return or line feed.
pub open spec fn is_clean_id(id: Seq<char>) -> bool {
    lacks_char(id, '\0') && lacks_char(id, '\r') && lacks_char(id, '\n')
}

/// An event as the parser emits it: a non-empty type without carriage
/// return or line feed, data without carriage return, and a clean id.
pub open spec fn is_clean_event(e: EventModel) -> bool {
    &&& e.event.len() > 0
    &&& lacks_char(e.event, '\r')
    &&& lacks_char(e.event, '\n')
    &&& lacks_char(e.data, '\r')
    &&& e.id matches Some(id) ==> is_clean_id(id)
}

pub open spec fn all_clean_events(events: Seq<EventModel>) -> bool {
    forall|i: int| 0 <= i < events.len() ==> is_clean_event(#[trigger] events[i])
}

/// What the parser holds is free of line terminators where the stream puts
/// none: the line buffer, the data buffer (but for the `\n` joining values),
/// the event type and the stored id.
pub open spec fn is_clean_state(m: ParserModel) -> bool {
    &&& no_terminator(m.line)
    &&& !m.data.contains(0x0du8)
    &&& lacks_char(m.event_type, '\r')
    &&& lacks_char(m.event_type, '\n')
    &&& m.last_event_id matches Some(id) ==> is_clean_id(id)
}

/// The states a parser can be in: until the byte order mark is settled, the
/// parser holds at most two bytes that begin it and nothing else; afterwards
/// it holds no such bytes.
pub open spec fn well_formed(m: ParserModel) -> bool {
    if m.bom_resolved {
        m.bom.len() == 0
    } else {
        &&& m.bom.len() < 3
        &&& is_bom_prefix(m.bom)
        &&& m == (ParserModel { bom: m.bom, ..initial_model() })
    }
}

/// The most bytes that any buffer of the parser may hold.
pub open spec fn buffer_limit() -> int {
    usize::MAX as int / 4
}

/// What the parser holds buffered, in bytes: feeding a byte raises it by at
/// most one (a processed line leaves the line buffer and adds at most its own
/// length to the data buffer), so it bounds the buffers' lengths.
pub open spec fn buffered_weight(m: ParserModel) -> int {
    (m.data.len() + m.line.len() + m.bom.len()) as int
}

/// The parser in state `m` can take `n` more bytes without its buffers
/// growing past `buffer_limit()`.
pub open spec fn can_accept(m: ParserModel, n: int) -> bool {
    buffered_weight(m) + n <= buffer_limit()
}

} // verus!
