//! The streaming parser.

use crate::buffer::{BomBuf, LineBuf};
use crate::error::ParseError;
use crate::event::{events_view, Event};
use crate::lemmas::{
    lemma_data_value_len, lemma_decimal_prefix, lemma_feed_concat, lemma_feed_resolved,
    lemma_feed_weight, lemma_first_index, lemma_flush_bom_weight, lemma_line_keeps,
    lemma_no_index, lemma_stream_concat, lemma_scan_end, lemma_scan_line, lemma_scan_start, lemma_stream_weight, found_line_end,
    line_ending_len, scan_state, scanned_line_model,
};
use crate::model::{
    all_digits, bom_byte_outcome, buffer_limit, buffered_weight, can_accept, decimal_value,
    dispatch_outcome, feed_byte_outcome, feed_outcome, field_name, finish_outcome,
    flush_bom_outcome, initial_model, is_bom_prefix, is_digit, line_field, line_outcome,
    line_value, no_terminator, pending_line_outcome, retry_value, stream_byte_outcome, stream_outcome,
    utf8_bom, FieldName, Outcome, ParserModel,
};
use crate::text::{
    compact_as_str, compact_chars, compact_clear, compact_default, compact_from_str,
    compact_is_empty, decode_utf8,
};
use compact_str::CompactString;
use memchr::{memchr, memchr2};
use vstd::prelude::*;

verus! {

/// An incremental parser for a stream of Server-Sent Events.
#[derive(Debug)]
pub struct Parser {
    bom_buffer: BomBuf,
    bom_resolved: bool,
    skip_lf: bool,
    line_buffer: LineBuf,
    data_buffer: LineBuf,
    event_type: CompactString,
    last_event_id: Option<CompactString>,
    retry: Option<u64>,
}

impl View for Parser {
    type V = ParserModel;

    closed spec fn view(&self) -> ParserModel {
        ParserModel {
            bom: self.bom_buffer@,
            bom_resolved: self.bom_resolved,
            skip_lf: self.skip_lf,
            line: self.line_buffer@,
            data: self.data_buffer@,
            event_type: compact_chars(self.event_type),
            last_event_id: match self.last_event_id {
                Some(s) => Some(compact_chars(s)),
                None => None,
            },
            retry: self.retry,
        }
    }
}

/// `r` is the result that the outcome's error calls for.
pub open spec fn result_matches(r: Result<(), ParseError>, error: Option<Seq<char>>) -> bool {
    match r {
        Ok(_) => error is None,
        Err(e) => error == Some(e.field_view()),
    }
}

/// A parser went from `before` to `after`, appending to `out` and returning
/// `r`, exactly as the outcome `o` says.
pub open spec fn follows_outcome(
    o: Outcome,
    after: ParserModel,
    out_before: Seq<Event>,
    out_after: Seq<Event>,
    r: Result<(), ParseError>,
) -> bool {
    &&& after == o.state
    &&& events_view(out_after) == events_view(out_before) + o.events
    &&& result_matches(r, o.error)
}

/// The field of a line, as the parser tells them apart.
fn field_name_of(field: &[u8]) -> (r: FieldName)
    ensures
        r == field_name(field@),
{
    let n = field.len();
    if n == 4 && field[0] == 0x64u8 && field[1] == 0x61u8 && field[2] == 0x74u8 && field[3] == 0x61u8 {
        assert(field@ =~= seq![0x64u8, 0x61, 0x74, 0x61]);
        FieldName::Data
    } else if n == 5 && field[0] == 0x65u8 && field[1] == 0x76u8 && field[2] == 0x65u8 && field[3]
        == 0x6eu8 && field[4] == 0x74u8 {
        assert(field@ =~= seq![0x65u8, 0x76, 0x65, 0x6e, 0x74]);
        FieldName::Event
    } else if n == 2 && field[0] == 0x69u8 && field[1] == 0x64u8 {
        assert(field@ =~= seq![0x69u8, 0x64]);
        FieldName::Id
    } else if n == 5 && field[0] == 0x72u8 && field[1] == 0x65u8 && field[2] == 0x74u8 && field[3]
        == 0x72u8 && field[4] == 0x79u8 {
        assert(field@ =~= seq![0x72u8, 0x65, 0x74, 0x72, 0x79]);
        FieldName::Retry
    } else {
        FieldName::Other
    }
}

/// The reconnection time that a `retry` value gives: `None` unless `bytes` is
/// a non-empty string of ASCII digits whose value fits in a `u64`.
pub fn parse_retry(bytes: &[u8]) -> (r: Option<u64>)
    ensures
        r == retry_value(bytes@),
{
    if bytes.len() == 0 {
        return None;
    }
    let mut i: usize = 0;
    while i < bytes.len()
        invariant
            i <= bytes@.len(),
            forall|j: int| 0 <= j < i ==> is_digit(#[trigger] bytes@[j]),
        decreases bytes@.len() - i,
    {
        if !(0x30u8 <= bytes[i] && bytes[i] <= 0x39u8) {
            return None;
        }
        i += 1;
    }
    assert(all_digits(bytes@));
    let mut value: u64 = 0;
    let mut k: usize = 0;
    assert(bytes@.take(0) =~= Seq::<u8>::empty());
    while k < bytes.len()
        invariant
            k <= bytes@.len(),
            all_digits(bytes@),
            value == decimal_value(bytes@.take(k as int)),
        decreases bytes@.len() - k,
    {
        let byte = bytes[k];
        let ghost next = bytes@.take(k + 1);
        proof {
            assert(next.drop_last() =~= bytes@.take(k as int));
            assert(next.last() == byte);
            assert(is_digit(bytes@[k as int]));
            lemma_decimal_prefix(bytes@, k + 1);
        }
        value = match value.checked_mul(10) {
            Some(v) => v,
            None => {
                return None;
            },
        };
        value = match value.checked_add((byte - 0x30u8) as u64) {
            Some(v) => v,
            None => {
                return None;
            },
        };
        k += 1;
    }
    assert(bytes@.take(bytes@.len() as int) =~= bytes@);
    Some(value)
}

/// `buf` could still grow into the UTF-8 byte order mark.
fn is_bom_start(buf: &[u8]) -> (r: bool)
    ensures
        r == is_bom_prefix(buf@),
{
    let n = buf.len();
    let r = n <= 3 && (n < 1 || buf[0] == 0xEFu8) && (n < 2 || buf[1] == 0xBBu8) && (n < 3
        || buf[2] == 0xBFu8);
    proof {
        if r {
            assert(buf@ =~= utf8_bom().take(n as int));
        } else if n <= 3 && buf@ == utf8_bom().take(n as int) {
            assert(n >= 1 ==> buf@[0] == utf8_bom()[0]);
            assert(n >= 2 ==> buf@[1] == utf8_bom()[1]);
            assert(n >= 3 ==> buf@[2] == utf8_bom()[2]);
        }
    }
    r
}

/// The search for a line terminator, stated over `no_terminator`.
proof fn lemma_line_search(s: Seq<u8>, r: Option<usize>)
    requires
        r matches Some(i) ==> i < s.len() && (s[i as int] == 0x0a || s[i as int] == 0x0d)
            && forall|j: int| 0 <= j < i ==> s[j] != 0x0a && s[j] != 0x0d,
        r is None ==> forall|j: int| 0 <= j < s.len() ==> s[j] != 0x0a && s[j] != 0x0d,
    ensures
        found_line_end(s, r),
{
    if let Some(i) = r {
        let t = s.take(i as int);
        assert forall|j: int| 0 <= j < t.len() implies #[trigger] t[j] != 0x0a && t[j] != 0x0d by {
            assert(t[j] == s[j]);
        }
    }
}

impl Parser {
    /// A parser that has seen no input.
    #[must_use]
    pub fn new() -> (p: Self)
        ensures
            p@ == initial_model(),
    {
        let p = Parser {
            bom_buffer: BomBuf::new(),
            bom_resolved: false,
            skip_lf: false,
            line_buffer: LineBuf::new(),
            data_buffer: LineBuf::new(),
            event_type: compact_default(),
            last_event_id: None,
            retry: None,
        };
        assert(p@ =~= initial_model());
        p
    }

    /// Parse `chunk`, the next piece of the stream, and return the events it
    /// completes. The parser keeps what is left of an unfinished line or event.
    pub fn feed(&mut self, chunk: &[u8]) -> (r: Result<Vec<Event>, ParseError>)
        requires
            can_accept(old(self)@, chunk@.len() as int),
        ensures
            final(self)@ == feed_outcome(old(self)@, chunk@).state,
            match r {
                Ok(events) => {
                    &&& feed_outcome(old(self)@, chunk@).error is None
                    &&& events_view(events@) == feed_outcome(old(self)@, chunk@).events
                },
                Err(e) => feed_outcome(old(self)@, chunk@).error == Some(e.field_view()),
            },
    {
        let mut events = Vec::new();
        assert(events_view(events@) =~= Seq::empty());
        match self.feed_into(chunk, &mut events) {
            Ok(()) => {
                assert(events_view(events@) =~= feed_outcome(old(self)@, chunk@).events);
                Ok(events)
            },
            Err(e) => Err(e),
        }
    }

    /// Parse `chunk` and append the events it completes to `out`.
    pub fn feed_into(&mut self, chunk: &[u8], out: &mut Vec<Event>) -> (r: Result<(), ParseError>)
        requires
            can_accept(old(self)@, chunk@.len() as int),
        ensures
            follows_outcome(feed_outcome(old(self)@, chunk@), final(self)@, old(out)@, final(out)@, r),
    {
        let ghost m0 = self@;
        let ghost out0 = out@;
        let mut offset: usize = 0;
        assert(chunk@.take(0) =~= Seq::<u8>::empty());
        assert(events_view(out0) + Seq::empty() =~= events_view(out0));
        while !self.bom_resolved && offset < chunk.len()
            invariant
                m0 == old(self)@,
                out0 == old(out)@,
                offset <= chunk@.len(),
                can_accept(m0, chunk@.len() as int),
                feed_outcome(m0, chunk@.take(offset as int)).error is None,
                self@ == feed_outcome(m0, chunk@.take(offset as int)).state,
                events_view(out@) == events_view(out0) + feed_outcome(
                    m0,
                    chunk@.take(offset as int),
                ).events,
            decreases chunk@.len() - offset,
        {
            let ghost before = feed_outcome(m0, chunk@.take(offset as int));
            let ghost out1 = out@;
            proof {
                lemma_feed_weight(m0, chunk@.take(offset as int));
                assert(chunk@.take(offset + 1).drop_last() =~= chunk@.take(offset as int));
                assert(chunk@.take(offset + 1).last() == chunk@[offset as int]);
            }
            let res = self.feed_byte(chunk[offset], out);
            let ghost step = feed_byte_outcome(before.state, chunk@[offset as int]);
            assert(events_view(out@) =~= events_view(out0) + (before.events + step.events));
            match res {
                Ok(()) => {},
                Err(e) => {
                    proof {
                        let oa = feed_outcome(m0, chunk@.take(offset + 1));
                        assert(oa == crate::model::then_outcome(before, step));
                        lemma_feed_concat(m0, chunk@.take(offset + 1), chunk@.skip(offset + 1));
                        assert(chunk@.take(offset + 1) + chunk@.skip(offset + 1) =~= chunk@);
                        assert(feed_outcome(m0, chunk@) == oa);
                        assert(oa.error == Some(e.field_view()));
                        assert(self@ == oa.state);
                        assert(events_view(out@) == events_view(out0) + oa.events);
                    }
                    return Err(e);
                },
            }
            offset += 1;
        }
        proof {
            lemma_feed_concat(m0, chunk@.take(offset as int), chunk@.skip(offset as int));
            assert(chunk@.take(offset as int) + chunk@.skip(offset as int) =~= chunk@);
        }
        if offset < chunk.len() {
            let rest = &chunk[offset..chunk.len()];
            assert(rest@ =~= chunk@.skip(offset as int));
            let ghost mid = feed_outcome(m0, chunk@.take(offset as int));
            proof {
                lemma_feed_resolved(mid.state, rest@);
                lemma_feed_weight(m0, chunk@.take(offset as int));
            }
            let ghost out1 = out@;
            let res = self.feed_stream_chunk(rest, out);
            let ghost tail = stream_outcome(mid.state, rest@);
            assert(events_view(out@) =~= events_view(out0) + (mid.events + tail.events));
            res
        } else {
            assert(chunk@.skip(offset as int) =~= Seq::<u8>::empty());
            let ghost mid = feed_outcome(m0, chunk@.take(offset as int));
            assert(mid.events + Seq::empty() =~= mid.events);
            Ok(())
        }
    }

    /// End of input: process an unterminated last line, dispatch the pending
    /// event, and return the events that this completes.
    pub fn finish(&mut self) -> (r: Result<Vec<Event>, ParseError>)
        requires
            can_accept(old(self)@, 0),
        ensures
            final(self)@ == finish_outcome(old(self)@).state,
            match r {
                Ok(events) => {
                    &&& finish_outcome(old(self)@).error is None
                    &&& events_view(events@) == finish_outcome(old(self)@).events
                },
                Err(e) => finish_outcome(old(self)@).error == Some(e.field_view()),
            },
    {
        let mut events = Vec::new();
        assert(events_view(events@) =~= Seq::empty());
        match self.finish_into(&mut events) {
            Ok(()) => {
                assert(events_view(events@) =~= finish_outcome(old(self)@).events);
                Ok(events)
            },
            Err(e) => Err(e),
        }
    }

    /// End of input, appending the events that this completes to `out`.
    pub fn finish_into(&mut self, out: &mut Vec<Event>) -> (r: Result<(), ParseError>)
        requires
            can_accept(old(self)@, 0),
        ensures
            follows_outcome(finish_outcome(old(self)@), final(self)@, old(out)@, final(out)@, r),
    {
        let ghost m0 = self@;
        let ghost out0 = out@;
        proof {
            lemma_flush_bom_weight(m0);
        }
        match self.flush_bom(out) {
            Ok(()) => {},
            Err(e) => {
                return Err(e);
            },
        }
        let ghost o1 = flush_bom_outcome(m0);
        let ghost out1 = out@;
        if !self.line_buffer.is_empty() {
            match self.process_pending_line(out) {
                Ok(()) => {},
                Err(e) => {
                    assert(events_view(out@) =~= events_view(out0) + (o1.events
                        + pending_line_outcome(o1.state).events));
                    return Err(e);
                },
            }
        } else {
            assert(events_view(out@) + Seq::empty() =~= events_view(out@));
        }
        let ghost o2 = if o1.state.line.len() > 0 {
            pending_line_outcome(o1.state)
        } else {
            crate::model::ok_outcome(o1.state)
        };
        self.skip_lf = false;
        let r = self.dispatch(out);
        let ghost o3 = dispatch_outcome(ParserModel { skip_lf: false, ..o2.state });
        assert(events_view(out@) =~= events_view(out0) + (o1.events + o2.events + o3.events));
        r
    }

    /// Forget everything seen, as if the parser were new.
    pub fn reset(&mut self)
        ensures
            final(self)@ == initial_model(),
    {
        self.bom_buffer.clear();
        self.bom_resolved = false;
        self.skip_lf = false;
        self.line_buffer.clear();
        self.data_buffer.clear();
        compact_clear(&mut self.event_type);
        self.last_event_id = None;
        self.retry = None;
        assert(self@ =~= initial_model());
    }

    /// The last event id that an `id` field set, if any.
    #[must_use]
    pub fn last_event_id(&self) -> (r: Option<&str>)
        ensures
            match r {
                Some(s) => self@.last_event_id == Some(s@),
                None => self@.last_event_id is None,
            },
    {
        match &self.last_event_id {
            Some(s) => Some(compact_as_str(s)),
            None => None,
        }
    }

    /// Whether the parser can take `additional` more bytes: feeding them
    /// keeps every buffer within `buffer_limit()`. Callers that are not
    /// verified test this before `feed`, `feed_into`, `finish` and
    /// `finish_into`.
    pub fn has_room_for(&self, additional: usize) -> (r: bool)
        ensures
            r == can_accept(self@, additional as int),
    {
        let data = self.data_buffer.as_slice().len() as u128;
        let line = self.line_buffer.as_slice().len() as u128;
        let bom = self.bom_buffer.as_slice().len() as u128;
        let total = data + line + bom + additional as u128;
        total <= (usize::MAX / 4) as u128
    }

    /// The last reconnection time that a `retry` field set, if any.
    #[must_use]
    pub fn retry(&self) -> (r: Option<u64>)
        ensures
            r == self@.retry,
    {
        self.retry
    }

    /// One input byte.
    fn feed_byte(&mut self, byte: u8, out: &mut Vec<Event>) -> (r: Result<(), ParseError>)
        requires
            can_accept(old(self)@, 1),
        ensures
            follows_outcome(feed_byte_outcome(old(self)@, byte), final(self)@, old(out)@, final(out)@, r),
    {
        if !self.bom_resolved {
            return self.handle_bom(byte, out);
        }
        self.feed_stream_byte(byte, out)
    }

    /// One byte while it is not yet settled whether the stream starts with a
    /// byte order mark.
    fn handle_bom(&mut self, byte: u8, out: &mut Vec<Event>) -> (r: Result<(), ParseError>)
        requires
            can_accept(old(self)@, 1),
        ensures
            follows_outcome(bom_byte_outcome(old(self)@, byte), final(self)@, old(out)@, final(out)@, r),
    {
        self.bom_buffer.push(byte);
        assert(events_view(out@) + Seq::empty() =~= events_view(out@));
        let buf = self.bom_buffer.as_slice();
        let n = buf.len();
        if (n == 1 && buf[0] == 0xEFu8) || (n == 2 && buf[0] == 0xEFu8 && buf[1] == 0xBBu8) {
            assert(buf@ != utf8_bom());
            assert(buf@ =~= utf8_bom().take(n as int));
            return Ok(());
        }
        if n == 3 && buf[0] == 0xEFu8 && buf[1] == 0xBBu8 && buf[2] == 0xBFu8 {
            assert(buf@ =~= utf8_bom());
            self.bom_buffer.clear();
            self.bom_resolved = true;
            return Ok(());
        }
        if is_bom_start(buf) {
            return Ok(());
        }
        self.flush_bom(out)
    }

    /// Stop looking for a byte order mark: the bytes held back are stream bytes.
    fn flush_bom(&mut self, out: &mut Vec<Event>) -> (r: Result<(), ParseError>)
        requires
            can_accept(old(self)@, 0),
        ensures
            follows_outcome(flush_bom_outcome(old(self)@), final(self)@, old(out)@, final(out)@, r),
    {
        assert(events_view(out@) + Seq::empty() =~= events_view(out@));
        if self.bom_resolved {
            return Ok(());
        }
        let ghost m1 = ParserModel { bom: Seq::empty(), bom_resolved: true, ..self@ };
        let ghost out0 = out@;
        self.bom_resolved = true;
        if self.bom_buffer.is_empty() {
            assert(self@ =~= m1);
            return Ok(());
        }
        let mut buffered = BomBuf::new();
        core::mem::swap(&mut buffered, &mut self.bom_buffer);
        let bytes = buffered.as_slice();
        assert(self@ =~= m1);
        let mut i: usize = 0;
        assert(bytes@.take(0) =~= Seq::<u8>::empty());
        while i < bytes.len()
            invariant
                m1 == (ParserModel { bom: Seq::empty(), bom_resolved: true, ..old(self)@ }),
                bytes@ == old(self)@.bom,
                !old(self)@.bom_resolved,
                out0 == old(out)@,
                i <= bytes@.len(),
                buffered_weight(m1) + bytes@.len() <= buffer_limit(),
                stream_outcome(m1, bytes@.take(i as int)).error is None,
                self@ == stream_outcome(m1, bytes@.take(i as int)).state,
                events_view(out@) == events_view(out0) + stream_outcome(
                    m1,
                    bytes@.take(i as int),
                ).events,
            decreases bytes@.len() - i,
        {
            let ghost before = stream_outcome(m1, bytes@.take(i as int));
            proof {
                lemma_stream_weight(m1, bytes@.take(i as int));
                assert(bytes@.take(i + 1).drop_last() =~= bytes@.take(i as int));
                assert(bytes@.take(i + 1).last() == bytes@[i as int]);
            }
            let res = self.feed_stream_byte(bytes[i], out);
            let ghost step = stream_byte_outcome(before.state, bytes@[i as int]);
            assert(events_view(out@) =~= events_view(out0) + (before.events + step.events));
            match res {
                Ok(()) => {},
                Err(e) => {
                    proof {
                        let oa = stream_outcome(m1, bytes@.take(i + 1));
                        assert(oa == crate::model::then_outcome(before, step));
                        lemma_stream_concat(m1, bytes@.take(i + 1), bytes@.skip(i + 1));
                        assert(bytes@.take(i + 1) + bytes@.skip(i + 1) =~= bytes@);
                        assert(stream_outcome(m1, bytes@) == oa);
                        assert(flush_bom_outcome(old(self)@) == oa);
                    }
                    return Err(e);
                },
            }
            i += 1;
        }
        assert(bytes@.take(bytes@.len() as int) =~= bytes@);
        Ok(())
    }

    /// One stream byte.
    fn feed_stream_byte(&mut self, byte: u8, out: &mut Vec<Event>) -> (r: Result<(), ParseError>)
        requires
            can_accept(old(self)@, 1),
        ensures
            follows_outcome(stream_byte_outcome(old(self)@, byte), final(self)@, old(out)@, final(out)@, r),
    {
        assert(events_view(out@) + Seq::empty() =~= events_view(out@));
        if self.skip_lf {
            self.skip_lf = false;
            if byte == 0x0au8 {
                return Ok(());
            }
        }
        if byte == 0x0au8 {
            self.process_pending_line(out)
        } else if byte == 0x0du8 {
            match self.process_pending_line(out) {
                Ok(()) => {
                    self.skip_lf = true;
                    Ok(())
                },
                Err(e) => Err(e),
            }
        } else {
            self.line_buffer.push(byte);
            Ok(())
        }
    }

    /// Process the line held in the line buffer, leaving the buffer empty.
    fn process_pending_line(&mut self, out: &mut Vec<Event>) -> (r: Result<(), ParseError>)
        requires
            can_accept(old(self)@, 0),
        ensures
            follows_outcome(pending_line_outcome(old(self)@), final(self)@, old(out)@, final(out)@, r),
    {
        let mut line = LineBuf::new();
        core::mem::swap(&mut line, &mut self.line_buffer);
        let ghost m1 = self@;
        proof {
            lemma_line_keeps(m1, line@);
        }
        let result = self.process_line(line.as_slice(), out);
        line.clear();
        self.line_buffer = line;
        result
    }

    /// Stream the bytes of a non-empty chunk, finding line ends by search
    /// and processing a whole line at a time.
    fn feed_stream_chunk(&mut self, chunk: &[u8], out: &mut Vec<Event>) -> (r: Result<(), ParseError>)
        requires
            chunk@.len() > 0,
            can_accept(old(self)@, chunk@.len() as int),
        ensures
            follows_outcome(stream_outcome(old(self)@, chunk@), final(self)@, old(out)@, final(out)@, r),
    {
        let ghost m0 = self@;
        let ghost out0 = out@;
        let ghost whole = chunk@;
        let mut rest: &[u8] = chunk;
        let ghost mut pos: int = 0;
        proof {
            lemma_scan_start(m0, whole);
        }
        assert(events_view(out0) + Seq::empty() =~= events_view(out0));
        assert(whole.skip(0) =~= whole);
        if self.skip_lf {
            self.skip_lf = false;
            if rest[0] == 0x0au8 {
                rest = &rest[1..rest.len()];
                proof {
                    pos = 1;
                }
                assert(rest@ =~= whole.skip(1));
            }
        }
        let mut next_end = memchr2(0x0au8, 0x0du8, rest);
        proof {
            lemma_line_search(rest@, next_end);
        }
        while next_end.is_some()
            invariant
                m0 == old(self)@,
                out0 == old(out)@,
                whole == chunk@,
                can_accept(m0, whole.len() as int),
                rest@ == whole.skip(pos),
                rest@.len() <= buffer_limit(),
                scan_state(m0, whole, pos, self@),
                events_view(out@) == events_view(out0) + stream_outcome(m0, whole.take(pos)).events,
                found_line_end(rest@, next_end),
            decreases rest@.len(),
        {
            let line_end = match next_end {
                Some(i) => i,
                None => 0,
            };
            let ghost o = stream_outcome(m0, whole.take(pos));
            let ghost m1 = scanned_line_model(m0, whole, pos, line_end as int);
            proof {
                lemma_scan_line(m0, whole, pos, line_end as int, self@);
            }
            let line = &rest[0..line_end];
            assert(line@ =~= rest@.take(line_end as int));
            let res = if self.line_buffer.is_empty() {
                assert(m1.line =~= line@);
                assert(self@ == (ParserModel { line: Seq::empty(), ..m1 }));
                self.process_line(line, out)
            } else {
                self.line_buffer.extend_from_slice(line);
                assert(self@ == m1);
                self.process_pending_line(out)
            };
            let ghost p = pending_line_outcome(m1);
            assert(events_view(out@) =~= events_view(out0) + (o.events + p.events));
            match res {
                Ok(()) => {},
                Err(e) => {
                    return Err(e);
                },
            }
            let ghost step = line_ending_len(rest@, line_end as int);
            rest = self.consume_line_ending(rest, line_end);
            proof {
                pos = pos + line_end + step;
                assert(rest@ =~= whole.skip(pos));
            }
            next_end = memchr2(0x0au8, 0x0du8, rest);
            proof {
                lemma_line_search(rest@, next_end);
            }
        }
        proof {
            lemma_scan_end(m0, whole, pos, self@);
        }
        if !rest.is_empty() {
            self.line_buffer.extend_from_slice(rest);
        }
        Ok(())
    }

    /// Step past the line ending at `chunk[line_end]`; a `\r` that ends the
    /// chunk may be followed by a `\n` in the next one.
    fn consume_line_ending<'a>(&mut self, chunk: &'a [u8], line_end: usize) -> (rest: &'a [u8])
        requires
            line_end < chunk@.len(),
        ensures
            rest@ == chunk@.skip(line_end + line_ending_len(chunk@, line_end as int)),
            final(self)@ == (ParserModel {
                skip_lf: old(self)@.skip_lf || (chunk@[line_end as int] == 0x0d && line_end + 1
                    == chunk@.len()),
                ..old(self)@
            }),
    {
        let len = chunk.len();
        let next = line_end + 1;
        if chunk[line_end] == 0x0du8 {
            if next < chunk.len() && chunk[next] == 0x0au8 {
                let rest = &chunk[next + 1..chunk.len()];
                assert(rest@ =~= chunk@.skip(next + 1));
                return rest;
            }
            if next == chunk.len() {
                self.skip_lf = true;
            }
        }
        let rest = &chunk[next..chunk.len()];
        assert(rest@ =~= chunk@.skip(next as int));
        rest
    }

    /// Emit the pending event, if any data was given, and start a new one.
    fn dispatch(&mut self, out: &mut Vec<Event>) -> (r: Result<(), ParseError>)
        ensures
            follows_outcome(dispatch_outcome(old(self)@), final(self)@, old(out)@, final(out)@, r),
    {
        reveal(dispatch_outcome);
        let data_all = self.data_buffer.as_slice();
        let n = data_all.len();
        if n == 0 {
            compact_clear(&mut self.event_type);
            assert(events_view(out@) + Seq::empty() =~= events_view(out@));
            return Ok(());
        }
        let data_slice = if data_all[n - 1] == 0x0au8 {
            &data_all[0..n - 1]
        } else {
            data_all
        };
        assert(data_all@.last() == data_all@[n - 1]);
        assert(n > 0 && data_all[n - 1] == 0x0au8 ==> data_slice@ =~= old(self)@.data.drop_last());
        let data = match decode_utf8(data_slice, "data") {
            Ok(text) => text.to_owned(),
            Err(e) => {
                assert(events_view(out@) + Seq::empty() =~= events_view(out@));
                return Err(e);
            },
        };
        let event = if compact_is_empty(&self.event_type) {
            proof {
                reveal_strlit("message");
                vstd::string::is_ascii_spec_bytes("message");
            }
            compact_from_str("message")
        } else {
            let mut taken = compact_default();
            core::mem::swap(&mut taken, &mut self.event_type);
            taken
        };
        let id = match &self.last_event_id {
            Some(s) => Some(s.clone()),
            None => None,
        };
        let ghost out_before = out@;
        let ev = Event { event, data, id };
        out.push(ev);
        self.data_buffer.clear();
        assert(events_view(out@) =~= events_view(out_before) + seq![ev@]);
        let ghost o = dispatch_outcome(old(self)@);
        assert(o.error is None);
        assert(self@ == o.state);
        assert(o.events == seq![ev@]);
        Ok(())
    }

    /// Process one complete line.
    fn process_line(&mut self, line: &[u8], out: &mut Vec<Event>) -> (r: Result<(), ParseError>)
        requires
            can_accept(old(self)@, line@.len() as int),
        ensures
            follows_outcome(line_outcome(old(self)@, line@), final(self)@, old(out)@, final(out)@, r),
    {
        reveal(line_outcome);
        if line.len() == 0 {
            return self.dispatch(out);
        }
        if line[0] == 0x3au8 {
            assert(events_view(out@) + Seq::empty() =~= events_view(out@));
            return Ok(());
        }
        let colon_index = memchr(0x3au8, line);
        let (field, value): (&[u8], &[u8]) = match colon_index {
            Some(index) => {
                proof {
                    lemma_first_index(line@, 0x3a, index as int);
                }
                let rest = &line[index + 1..line.len()];
                assert(rest@ =~= line@.skip(index + 1));
                let value = if rest.len() > 0 && rest[0] == 0x20u8 {
                    &rest[1..rest.len()]
                } else {
                    rest
                };
                assert(value@ =~= line_value(line@));
                assert(line@.take(index as int) =~= line@.subrange(0, index as int));
                (&line[0..index], value)
            },
            None => {
                proof {
                    lemma_no_index(line@, 0x3a);
                }
                assert(line@.subrange(0, 0) =~= Seq::<u8>::empty());
                (line, &line[0..0])
            },
        };
        assert(field@ =~= line_field(line@));
        assert(value@ =~= line_value(line@));
        assert(events_view(out@) + Seq::empty() =~= events_view(out@));
        match field_name_of(field) {
            FieldName::Data => {
                proof {
                    lemma_data_value_len(line@);
                }
                self.data_buffer.extend_from_slice(value);
                self.data_buffer.push(0x0au8);
                assert(self@.data =~= old(self)@.data + value@ + seq![0x0au8]);
            },
            FieldName::Event => {
                match decode_utf8(value, "event") {
                    Ok(text) => {
                        self.event_type = compact_from_str(text);
                    },
                    Err(e) => {
                        return Err(e);
                    },
                }
            },
            FieldName::Id => {
                match memchr(0, value) {
                    Some(i) => {
                        assert(value@[i as int] == 0);
                    },
                    None => {
                        match decode_utf8(value, "id") {
                            Ok(text) => {
                                self.last_event_id = Some(compact_from_str(text));
                            },
                            Err(e) => {
                                return Err(e);
                            },
                        }
                    },
                }
            },
            FieldName::Retry => {
                if let Some(retry) = parse_retry(value) {
                    self.retry = Some(retry);
                }
            },
            FieldName::Other => {},
        }
        Ok(())
    }
}

impl Default for Parser {
    /// A parser that has seen no input.
    fn default() -> (p: Self)
        ensures
            p@ == initial_model(),
    {
        Parser::new()
    }
}

} // verus!
