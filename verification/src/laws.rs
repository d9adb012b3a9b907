//! Properties of the parser as a whole, stated over the model that the
//! contracts of `Parser` use.

use crate::lemmas::{
    lemma_feed_concat, lemma_feed_resolved, lemma_feed_weight, lemma_line_keeps,
    lemma_stream_keeps_bom, lemma_stream_line,
};
use crate::model::{
    can_accept, dispatch_outcome, feed_byte_outcome, feed_outcome, finish_outcome,
    flush_bom_outcome, initial_model, line_outcome, no_terminator, ok_outcome,
    pending_line_outcome, stream_byte_outcome, stream_outcome, then_outcome, utf8_bom,
    well_formed, is_bom_prefix, normalize_line_endings, lacks_char, is_clean_state,
    all_clean_events, is_clean_event, is_clean_id, line_value, first_index, is_first_index,
    strip_one_space, EventModel, ParserModel,
};
use crate::lemmas::lemma_stream_plain;
use vstd::prelude::*;

verus! {

/// Chunk boundaries do not matter: feeding `a` and then `b` does what
/// feeding `a + b` at once does (the events of both calls, in order, and the
/// same final state), and where feeding `a` fails, feeding `a + b` fails in
/// the same way. A parser that can take `a + b` can take `b` after `a`.
pub proof fn law_chunking(m: ParserModel, a: Seq<u8>, b: Seq<u8>)
    ensures
        feed_outcome(m, a).error is Some ==> feed_outcome(m, a + b) == feed_outcome(m, a),
        feed_outcome(m, a).error is None ==> feed_outcome(m, a + b) == then_outcome(
            feed_outcome(m, a),
            feed_outcome(feed_outcome(m, a).state, b),
        ),
        can_accept(m, (a.len() + b.len()) as int) ==> can_accept(m, a.len() as int) && can_accept(
            feed_outcome(m, a).state,
            b.len() as int,
        ),
{
    lemma_feed_concat(m, a, b);
    lemma_feed_weight(m, a);
}

/// `\n`, `\r\n` and `\r` end a line alike: a line ended by `\r\n` does what
/// one ended by `\n` does, and so does one ended by `\r` and followed by
/// another byte than `\n`.
pub proof fn law_line_endings(m: ParserModel, line: Seq<u8>, next: u8)
    requires
        m.bom_resolved,
        !m.skip_lf,
        no_terminator(line),
        next != 0x0a,
    ensures
        feed_outcome(m, line + seq![0x0du8, 0x0a]) == feed_outcome(m, line + seq![0x0au8]),
        feed_outcome(m, line + seq![0x0du8, next]) == feed_outcome(m, line + seq![0x0au8, next]),
{
    let m1 = ParserModel { line: m.line + line, skip_lf: false, ..m };
    let p = pending_line_outcome(m1);
    lemma_line_keeps(ParserModel { line: Seq::empty(), ..m1 }, m1.line);
    lemma_stream_line(m, line, 0x0d);
    lemma_stream_line(m, line, 0x0a);
    assert(line + seq![0x0au8] =~= line.push(0x0a));
    assert(line + seq![0x0du8] =~= line.push(0x0d));
    let cr = stream_outcome(m, line.push(0x0d));
    let lf = stream_outcome(m, line.push(0x0a));
    assert(lf == p);
    lemma_feed_resolved(m, line + seq![0x0du8, 0x0a]);
    lemma_feed_resolved(m, line + seq![0x0au8]);
    lemma_feed_resolved(m, line + seq![0x0du8, next]);
    lemma_feed_resolved(m, line + seq![0x0au8, next]);
    assert((line + seq![0x0du8, 0x0a]).drop_last() =~= line.push(0x0d));
    assert((line + seq![0x0du8, next]).drop_last() =~= line.push(0x0d));
    assert((line + seq![0x0au8, next]).drop_last() =~= line.push(0x0a));
    assert((line + seq![0x0du8, 0x0a]).last() == 0x0a);
    assert((line + seq![0x0du8, next]).last() == next);
    assert((line + seq![0x0au8, next]).last() == next);
    if p.error is None {
        assert(p.events + Seq::<EventModel>::empty() =~= p.events);
        assert(stream_byte_outcome(cr.state, next) == stream_byte_outcome(lf.state, next));
    }
}

/// A UTF-8 byte order mark at the start of the stream is skipped: a new
/// parser fed the mark and then `rest` does what one that is past the
/// question of the mark does with `rest`.
pub proof fn law_bom_skipped(rest: Seq<u8>)
    ensures
        feed_outcome(initial_model(), utf8_bom() + rest) == feed_outcome(
            ParserModel { bom_resolved: true, ..initial_model() },
            rest,
        ),
{
    let m = initial_model();
    let bom = utf8_bom();
    lemma_feed_concat(m, bom, rest);
    assert(bom.take(0) =~= Seq::<u8>::empty());
    assert(bom.take(1).drop_last() =~= bom.take(0));
    assert(bom.take(2).drop_last() =~= bom.take(1));
    assert(bom.take(3).drop_last() =~= bom.take(2));
    assert(bom.take(3) =~= bom);
    assert(seq![0xEFu8] =~= utf8_bom().take(1));
    assert(seq![0xEFu8, 0xBB] =~= utf8_bom().take(2));
    assert(seq![0xEFu8, 0xBB, 0xBF] =~= utf8_bom());
    assert(bom.take(1).last() == 0xEFu8);
    assert(bom.take(2).last() == 0xBBu8);
    assert(bom.take(3).last() == 0xBFu8);
    let o0 = feed_outcome(m, bom.take(0));
    assert(o0 == ok_outcome(m));
    let o1 = feed_outcome(m, bom.take(1));
    assert(o1 == then_outcome(o0, feed_byte_outcome(m, 0xEFu8)));
    let o2 = feed_outcome(m, bom.take(2));
    let o3 = feed_outcome(m, bom.take(3));
    assert(Seq::<u8>::empty().push(0xEFu8) =~= seq![0xEFu8]);
    assert(seq![0xEFu8].push(0xBBu8) =~= seq![0xEFu8, 0xBB]);
    assert(seq![0xEFu8, 0xBB].push(0xBFu8) =~= seq![0xEFu8, 0xBB, 0xBF]);
    assert(o1.state == ParserModel { bom: seq![0xEFu8], ..m });
    assert(o2.state == ParserModel { bom: seq![0xEFu8, 0xBB], ..m });
    assert(o3.state == ParserModel { bom_resolved: true, ..m });
    assert(o3.events =~= Seq::<EventModel>::empty());
    assert(o3.events + feed_outcome(o3.state, rest).events =~= feed_outcome(o3.state, rest).events);
}

/// A stream that does not start with the byte `0xEF` is read from its first
/// byte: a new parser does with it what one past the question of the byte
/// order mark does.
pub proof fn law_no_bom(s: Seq<u8>)
    requires
        s.len() > 0,
        s[0] != 0xEF,
    ensures
        feed_outcome(initial_model(), s) == feed_outcome(
            ParserModel { bom_resolved: true, ..initial_model() },
            s,
        ),
{
    let m = initial_model();
    let r = ParserModel { bom_resolved: true, ..m };
    let first = s.take(1);
    let rest = s.skip(1);
    assert(first + rest =~= s);
    lemma_feed_concat(m, first, rest);
    lemma_feed_concat(r, first, rest);
    assert(first.drop_last() =~= Seq::<u8>::empty());
    assert(first.last() == s[0]);
    let buf = Seq::<u8>::empty().push(s[0]);
    assert(buf =~= seq![s[0]]);
    assert(buf != utf8_bom());
    assert(buf != utf8_bom().take(1));
    assert(buf.drop_last() =~= Seq::<u8>::empty());
    assert(feed_outcome(m, first.drop_last()) == ok_outcome(m));
    assert(feed_outcome(r, first.drop_last()) == ok_outcome(r));
    let o = feed_outcome(m, first);
    let orr = feed_outcome(r, first);
    assert(o == then_outcome(ok_outcome(m), feed_byte_outcome(m, s[0])));
    assert(orr == then_outcome(ok_outcome(r), feed_byte_outcome(r, s[0])));
    assert(feed_byte_outcome(m, s[0]) == flush_bom_outcome(ParserModel { bom: buf, ..m }));
    assert(buf.last() == s[0]);
    assert(stream_outcome(r, buf.drop_last()) == ok_outcome(r));
    assert(stream_outcome(r, buf) == then_outcome(ok_outcome(r), stream_byte_outcome(r, s[0])));
    assert(o == orr);
}

/// Comment lines are ignored: a line that starts with `:` changes nothing
/// and emits nothing.
pub proof fn law_comment_ignored(m: ParserModel, text: Seq<u8>)
    requires
        m.bom_resolved,
        !m.skip_lf,
        m.line.len() == 0,
        no_terminator(text),
    ensures
        feed_outcome(m, seq![0x3au8] + text + seq![0x0au8]) == ok_outcome(m),
{
    let line = seq![0x3au8] + text;
    assert(no_terminator(line)) by {
        assert forall|i: int| 0 <= i < line.len() implies #[trigger] line[i] != 0x0a && line[i]
            != 0x0d by {
            if i > 0 {
                assert(line[i] == text[i - 1]);
            }
        }
    }
    assert(line + seq![0x0au8] =~= line.push(0x0a));
    lemma_feed_resolved(m, line.push(0x0a));
    lemma_stream_line(m, line, 0x0a);
    assert(m.line + line =~= line);
    let m1 = ParserModel { line: line, skip_lf: false, ..m };
    assert(ParserModel { line: Seq::empty(), ..m1 } == m);
    reveal(line_outcome);
}

/// `finish` leaves nothing behind: afterwards no line, data or event type is
/// pending, the byte order mark is settled, and finishing again emits
/// nothing and changes nothing.
pub proof fn law_finish_drains(m: ParserModel)
    requires
        finish_outcome(m).error is None,
    ensures
        finish_outcome(m).state.line.len() == 0,
        finish_outcome(m).state.data.len() == 0,
        finish_outcome(m).state.event_type.len() == 0,
        finish_outcome(m).state.bom_resolved,
        !finish_outcome(m).state.skip_lf,
        finish_outcome(finish_outcome(m).state) == ok_outcome(finish_outcome(m).state),
{
    reveal(dispatch_outcome);
    let o1 = flush_bom_outcome(m);
    if !m.bom_resolved {
        lemma_stream_keeps_bom(ParserModel { bom: Seq::empty(), bom_resolved: true, ..m }, m.bom);
    }
    if o1.error is None && o1.state.line.len() > 0 {
        let s1 = o1.state;
        lemma_line_keeps(ParserModel { line: Seq::empty(), ..s1 }, s1.line);
    }
    let s = finish_outcome(m).state;
    assert(Seq::<EventModel>::empty() + Seq::<EventModel>::empty() =~= Seq::<EventModel>::empty());
    assert(ParserModel { event_type: Seq::empty(), ..s } == s);
}

/// A new parser is well formed, and feeding and finishing keep a parser well
/// formed, whether they succeed or fail.
pub proof fn law_well_formed(m: ParserModel, bytes: Seq<u8>)
    requires
        well_formed(m),
    ensures
        well_formed(initial_model()),
        well_formed(feed_outcome(m, bytes).state),
        well_formed(finish_outcome(m).state),
    decreases bytes.len(),
{
    assert(initial_model().bom =~= utf8_bom().take(0));
    if bytes.len() > 0 {
        law_well_formed(m, bytes.drop_last());
        let s = feed_outcome(m, bytes.drop_last()).state;
        let b = bytes.last();
        if s.bom_resolved {
            lemma_stream_keeps_bom(s, seq![b]);
            assert(seq![b].drop_last() =~= Seq::<u8>::empty());
            assert(seq![b].last() == b);
            assert(stream_outcome(s, seq![b].drop_last()) == ok_outcome(s));
            assert(stream_outcome(s, seq![b]) == then_outcome(ok_outcome(s), stream_byte_outcome(s, b)));
        } else {
            let buf = s.bom.push(b);
            assert(utf8_bom().take(3) =~= utf8_bom());
            if buf != utf8_bom() && is_bom_prefix(buf) {
                assert(buf.len() < 3);
                assert(buf =~= utf8_bom().take(buf.len() as int));
            } else if buf != utf8_bom() {
                lemma_stream_keeps_bom(ParserModel { bom: Seq::empty(), bom_resolved: true, ..s }, buf);
            }
        }
    }
    if !m.bom_resolved {
        lemma_stream_keeps_bom(ParserModel { bom: Seq::empty(), bom_resolved: true, ..m }, m.bom);
    }
    let o1 = flush_bom_outcome(m);
    if o1.error is None && o1.state.line.len() > 0 {
        let s1 = o1.state;
        lemma_line_keeps(ParserModel { line: Seq::empty(), ..s1 }, s1.line);
    }
    reveal(dispatch_outcome);
}

/// The bytes held back as a possible byte order mark end no line.
proof fn lemma_bom_plain(m: ParserModel)
    requires
        well_formed(m),
    ensures
        no_terminator(m.bom),
{
    let bom = m.bom;
    assert forall|i: int| 0 <= i < bom.len() implies #[trigger] bom[i] != 0x0a && bom[i]
        != 0x0d by {
        assert(bom[i] == utf8_bom().take(bom.len() as int)[i]);
    }
}

/// `finish` emits at most one event: the held back byte order mark bytes
/// and an unterminated last line emit none, and the final dispatch at most
/// one. Every state a parser reaches is well formed (`law_well_formed`).
pub proof fn law_finish_one_event(m: ParserModel)
    requires
        well_formed(m),
    ensures
        finish_outcome(m).events.len() <= 1,
{
    reveal(line_outcome);
    reveal(dispatch_outcome);
    if !m.bom_resolved {
        lemma_bom_plain(m);
        lemma_stream_plain(ParserModel { bom: Seq::empty(), bom_resolved: true, ..m }, m.bom);
    }
}

/// One input byte, as far as line endings go: a byte that ends no line does
/// not care about a pending `\r`; a `\r` does what a `\n` does, but leaves a
/// `\r` pending; a `\n` after a pending `\r` is swallowed.
proof fn lemma_byte_endings(st: ParserModel, x: u8)
    requires
        well_formed(st),
    ensures
        x != 0x0a && x != 0x0d ==> feed_byte_outcome(st, x) == feed_byte_outcome(
            ParserModel { skip_lf: false, ..st },
            x,
        ),
        x != 0x0a && x != 0x0d ==> feed_byte_outcome(st, x).error is None
            && !feed_byte_outcome(st, x).state.skip_lf,
        x == 0x0a && !st.skip_lf ==> !feed_byte_outcome(st, x).state.skip_lf,
        x == 0x0a && st.skip_lf ==> feed_byte_outcome(st, x) == ok_outcome(
            ParserModel { skip_lf: false, ..st },
        ),
        ({
            let c = feed_byte_outcome(st, 0x0d);
            let l = feed_byte_outcome(ParserModel { skip_lf: false, ..st }, 0x0a);
            &&& c.events == l.events
            &&& c.error == l.error
            &&& l.state == (ParserModel { skip_lf: false, ..c.state })
            &&& c.error is None ==> c.state.skip_lf
        }),
{
    assert(utf8_bom().take(3) =~= utf8_bom());
    if st.bom_resolved {
        let m1 = ParserModel { skip_lf: false, ..st };
        lemma_line_keeps(ParserModel { line: Seq::empty(), ..m1 }, m1.line);
    } else {
        let bom = st.bom;
        lemma_bom_plain(st);
        let m2 = ParserModel { bom: Seq::empty(), bom_resolved: true, ..st };
        let y = ParserModel { line: m2.line + bom, skip_lf: false, ..m2 };
        lemma_line_keeps(ParserModel { line: Seq::empty(), ..y }, y.line);
        let bc = bom.push(0x0d);
        let bl = bom.push(0x0a);
        assert(bc.last() == 0x0d);
        assert(bl.last() == 0x0a);
        assert(!is_bom_prefix(bc)) by {
            if is_bom_prefix(bc) {
                assert(bc[bc.len() - 1] == utf8_bom().take(bc.len() as int)[bc.len() - 1]);
            }
        }
        assert(!is_bom_prefix(bl)) by {
            if is_bom_prefix(bl) {
                assert(bl[bl.len() - 1] == utf8_bom().take(bl.len() as int)[bl.len() - 1]);
            }
        }
        lemma_stream_line(m2, bom, 0x0d);
        lemma_stream_line(m2, bom, 0x0a);
        if x != 0x0a && x != 0x0d {
            let bx = bom.push(x);
            assert(no_terminator(bx)) by {
                assert forall|i: int| 0 <= i < bx.len() implies #[trigger] bx[i] != 0x0a && bx[i]
                    != 0x0d by {
                    if i < bom.len() {
                        assert(bx[i] == bom[i]);
                    }
                }
            }
            lemma_stream_plain(m2, bx);
        }
    }
}

/// `\n`, `\r\n` and `\r` are interchangeable line endings: feeding a stream
/// does what feeding it with each `\r\n` pair and each other `\r` replaced by
/// `\n` does (the same events and the same error), and leaves the same state
/// but for a pending `\r`. This holds from a new parser, and from any well
/// formed state that has no `\r` pending.
pub proof fn law_line_endings_stream(m: ParserModel, s: Seq<u8>)
    requires
        well_formed(m),
        !m.skip_lf,
    ensures
        feed_outcome(m, s).events == feed_outcome(m, normalize_line_endings(s)).events,
        feed_outcome(m, s).error == feed_outcome(m, normalize_line_endings(s)).error,
        feed_outcome(m, normalize_line_endings(s)).state == (ParserModel {
            skip_lf: false,
            ..feed_outcome(m, s).state
        }),
        feed_outcome(m, s).error is None ==> (feed_outcome(m, s).state.skip_lf <==> (s.len() > 0
            && s.last() == 0x0d)),
    decreases s.len(),
{
    let ns = normalize_line_endings(s);
    if s.len() == 0 {
        assert(ParserModel { skip_lf: false, ..m } == m);
    } else {
        let p = s.drop_last();
        let x = s.last();
        let np = normalize_line_endings(p);
        law_line_endings_stream(m, p);
        law_well_formed(m, p);
        let a0 = feed_outcome(m, p);
        let b0 = feed_outcome(m, np);
        if x == 0x0a && s.len() >= 2 && s[s.len() - 2] == 0x0d {
            assert(s.drop_last().drop_last() =~= p.drop_last());
            assert(p.last() == s[s.len() - 2]);
            assert(ns == np);
            if a0.error is None {
                lemma_byte_endings(a0.state, x);
                assert(a0.events + Seq::<EventModel>::empty() =~= a0.events);
            }
        } else {
            let y = if x == 0x0d {
                0x0au8
            } else {
                x
            };
            assert(ns == np.push(y));
            assert(ns.drop_last() =~= np);
            assert(ns.last() == y);
            if a0.error is None {
                lemma_byte_endings(a0.state, x);
                if x == 0x0a {
                    assert(p.len() == 0 || p.last() != 0x0d);
                    assert(!a0.state.skip_lf);
                    assert(b0.state == a0.state);
                }
            }
        }
    }
}

proof fn lemma_width_2_bound(x: u8, y: u8)
    by (bit_vector)
    ensures
        vstd::utf8::codepoint_width_2(x, y) <= 0x7ff,
{
}

proof fn lemma_width_3_bound(x: u8, y: u8, z: u8)
    by (bit_vector)
    ensures
        vstd::utf8::codepoint_width_3(x, y, z) <= 0xffff,
{
}

/// Decoding UTF-8 yields an ASCII character only where its byte occurs.
proof fn lemma_decode_lacks(bytes: Seq<u8>, b: u8)
    requires
        vstd::utf8::valid_utf8(bytes),
        b < 0x80,
        !bytes.contains(b),
    ensures
        lacks_char(vstd::utf8::decode_utf8(bytes), b as char),
    decreases bytes.len(),
{
    if bytes.len() > 0 {
        let first = bytes[0];
        let rest = vstd::utf8::pop_first_scalar(bytes);
        let k = vstd::utf8::length_of_first_scalar(bytes);
        assert(1 <= k <= 4);
        assert(rest.len() < bytes.len());
        assert(!rest.contains(b)) by {
            if rest.contains(b) {
                let j = choose|j: int| 0 <= j < rest.len() && rest[j] == b;
                assert(bytes[j + k] == b);
            }
        }
        lemma_decode_lacks(rest, b);
        let cp = vstd::utf8::decode_first_scalar(bytes);
        if vstd::utf8::is_leading_byte_width_1(first) {
            assert(first <= 0x7f ==> (first & 0x7f) == first) by (bit_vector);
            assert(cp == first as u32);
            assert(first != b);
        } else if vstd::utf8::is_leading_byte_width_2(first) {
            lemma_width_2_bound(first, bytes[1]);
        } else if vstd::utf8::is_leading_byte_width_3(first) {
            lemma_width_3_bound(first, bytes[1], bytes[2]);
        }
        assert(vstd::utf8::valid_utf8(rest));
        let d = vstd::utf8::decode_utf8(bytes);
        assert(d == seq![cp as char] + vstd::utf8::decode_utf8(rest));
        assert(cp != b as u32);
        assert(cp <= 0x10ffff);
        assert((cp as char) as u32 == cp);
        assert((b as char) as u32 == b as u32);
        assert(cp as char != b as char);
        assert forall|i: int| 0 <= i < d.len() implies d[i] != b as char by {
            if i == 0 {
                assert(d[0] == cp as char);
            } else {
                assert(d[i] == vstd::utf8::decode_utf8(rest)[i - 1]);
            }
        }
    }
}

/// The value of a line holds no terminator where the line holds none.
proof fn lemma_value_plain(line: Seq<u8>)
    requires
        no_terminator(line),
    ensures
        no_terminator(line_value(line)),
{
    if let Some(i) = first_index(line, 0x3a) {
        let w = choose|k: int| is_first_index(line, 0x3a, k);
        assert(is_first_index(line, 0x3a, w));
        let t = line.skip(i + 1);
        let v = strip_one_space(t);
        assert forall|j: int| 0 <= j < v.len() implies #[trigger] v[j] != 0x0a && v[j] != 0x0d by {
            if t.len() > 0 && t[0] == 0x20 {
                assert(v[j] == line[i + 2 + j]);
            } else {
                assert(v[j] == line[i + 1 + j]);
            }
        }
    }
}

/// Text decoded from bytes without terminators holds no terminator.
proof fn lemma_decode_plain(bytes: Seq<u8>)
    requires
        vstd::utf8::valid_utf8(bytes),
        no_terminator(bytes),
    ensures
        lacks_char(vstd::utf8::decode_utf8(bytes), '\r'),
        lacks_char(vstd::utf8::decode_utf8(bytes), '\n'),
{
    assert(!bytes.contains(0x0au8));
    assert(!bytes.contains(0x0du8));
    lemma_decode_lacks(bytes, 0x0a);
    lemma_decode_lacks(bytes, 0x0d);
    assert(0x0au8 as char == '\n');
    assert(0x0du8 as char == '\r');
}

/// Processing a line without terminators keeps the state clean and emits
/// only clean events.
proof fn lemma_line_clean(m: ParserModel, line: Seq<u8>)
    requires
        is_clean_state(m),
        no_terminator(line),
    ensures
        is_clean_state(line_outcome(m, line).state),
        all_clean_events(line_outcome(m, line).events),
{
    reveal(line_outcome);
    reveal(dispatch_outcome);
    lemma_value_plain(line);
    let value = line_value(line);
    if line.len() == 0 {
        if m.data.len() > 0 {
            let d = if m.data.last() == 0x0a {
                m.data.drop_last()
            } else {
                m.data
            };
            assert(!d.contains(0x0du8)) by {
                if d.contains(0x0du8) {
                    let j = choose|j: int| 0 <= j < d.len() && d[j] == 0x0du8;
                    assert(m.data[j] == 0x0du8);
                }
            }
            if vstd::utf8::valid_utf8(d) {
                lemma_decode_lacks(d, 0x0d);
                assert(0x0du8 as char == '\r');
                reveal_strlit("message");
                let o = dispatch_outcome(m);
                assert(o.events.len() == 1);
                assert(is_clean_event(o.events[0]));
            }
        }
    } else if line[0] != 0x3a {
        let v = line_value(line);
        if vstd::utf8::valid_utf8(v) {
            lemma_decode_plain(v);
            if !v.contains(0u8) {
                lemma_decode_lacks(v, 0);
                assert(0u8 as char == '\0');
            }
        }
        let nd = m.data + v + seq![0x0au8];
        assert(!nd.contains(0x0du8)) by {
            if nd.contains(0x0du8) {
                let j = choose|j: int| 0 <= j < nd.len() && nd[j] == 0x0du8;
                if j < m.data.len() {
                    assert(m.data[j] == 0x0du8);
                } else if j < m.data.len() + v.len() {
                    assert(v[j - m.data.len()] == 0x0du8);
                }
            }
        }
    }
}

/// One stream byte keeps the state clean and emits only clean events.
proof fn lemma_stream_byte_clean(m: ParserModel, b: u8)
    requires
        is_clean_state(m),
    ensures
        is_clean_state(stream_byte_outcome(m, b).state),
        all_clean_events(stream_byte_outcome(m, b).events),
{
    let m1 = ParserModel { skip_lf: false, ..m };
    let m2 = ParserModel { line: Seq::empty(), ..m1 };
    lemma_line_clean(m2, m1.line);
    lemma_line_keeps(m2, m1.line);
    let l = m1.line.push(b);
    if b != 0x0a && b != 0x0d {
        assert forall|j: int| 0 <= j < l.len() implies #[trigger] l[j] != 0x0a && l[j] != 0x0d by {
            if j < m1.line.len() {
                assert(l[j] == m1.line[j]);
            }
        }
    }
}

/// Stream bytes keep the state clean and emit only clean events.
proof fn lemma_stream_clean(m: ParserModel, bytes: Seq<u8>)
    requires
        is_clean_state(m),
    ensures
        is_clean_state(stream_outcome(m, bytes).state),
        all_clean_events(stream_outcome(m, bytes).events),
    decreases bytes.len(),
{
    if bytes.len() > 0 {
        lemma_stream_clean(m, bytes.drop_last());
        let o = stream_outcome(m, bytes.drop_last());
        if o.error is None {
            lemma_stream_byte_clean(o.state, bytes.last());
            let e = o.events + stream_byte_outcome(o.state, bytes.last()).events;
            assert forall|i: int| 0 <= i < e.len() implies is_clean_event(#[trigger] e[i]) by {
                if i >= o.events.len() {
                    assert(e[i] == stream_byte_outcome(o.state, bytes.last()).events[i
                        - o.events.len()]);
                }
            }
        }
    }
}

/// Giving up on the byte order mark keeps the state clean.
proof fn lemma_flush_clean(m: ParserModel)
    requires
        is_clean_state(m),
    ensures
        is_clean_state(flush_bom_outcome(m).state),
        all_clean_events(flush_bom_outcome(m).events),
{
    if !m.bom_resolved {
        lemma_stream_clean(ParserModel { bom: Seq::empty(), bom_resolved: true, ..m }, m.bom);
    }
}

/// What the parser emits and stores is free of line terminators: every
/// event has a non-empty type without `\r` or `\n`, data without `\r`, and an
/// id without NUL, `\r` or `\n`; the stored last event id is free of them
/// too. A new parser is clean, and feeding and finishing keep it so.
pub proof fn law_event_contents(m: ParserModel, bytes: Seq<u8>)
    requires
        is_clean_state(m),
    ensures
        is_clean_state(initial_model()),
        is_clean_state(feed_outcome(m, bytes).state),
        all_clean_events(feed_outcome(m, bytes).events),
        is_clean_state(finish_outcome(m).state),
        all_clean_events(finish_outcome(m).events),
    decreases bytes.len(),
{
    if bytes.len() > 0 {
        law_event_contents(m, bytes.drop_last());
        let o = feed_outcome(m, bytes.drop_last());
        let b = bytes.last();
        if o.error is None {
            let step = feed_byte_outcome(o.state, b);
            if o.state.bom_resolved {
                lemma_stream_byte_clean(o.state, b);
            } else {
                lemma_flush_clean(ParserModel { bom: o.state.bom.push(b), ..o.state });
            }
            let e = o.events + step.events;
            assert forall|i: int| 0 <= i < e.len() implies is_clean_event(#[trigger] e[i]) by {
                if i >= o.events.len() {
                    assert(e[i] == step.events[i - o.events.len()]);
                }
            }
        }
    }
    lemma_flush_clean(m);
    let o1 = flush_bom_outcome(m);
    if o1.error is None {
        let s1 = o1.state;
        let x = ParserModel { line: Seq::empty(), ..s1 };
        lemma_line_clean(x, s1.line);
        lemma_line_keeps(x, s1.line);
        let o2 = if s1.line.len() > 0 {
            pending_line_outcome(s1)
        } else {
            ok_outcome(s1)
        };
        if o2.error is None {
            let y = ParserModel { skip_lf: false, ..o2.state };
            lemma_line_clean(y, Seq::empty());
            reveal(line_outcome);
            let o3 = dispatch_outcome(y);
            let e = o1.events + o2.events + o3.events;
            assert forall|i: int| 0 <= i < e.len() implies is_clean_event(#[trigger] e[i]) by {
                if i < o1.events.len() {
                    assert(e[i] == o1.events[i]);
                } else if i < o1.events.len() + o2.events.len() {
                    assert(e[i] == o2.events[i - o1.events.len()]);
                } else {
                    assert(e[i] == o3.events[i - o1.events.len() - o2.events.len()]);
                }
            }
        } else {
            let e = o1.events + o2.events;
            assert forall|i: int| 0 <= i < e.len() implies is_clean_event(#[trigger] e[i]) by {
                if i >= o1.events.len() {
                    assert(e[i] == o2.events[i - o1.events.len()]);
                }
            }
        }
    }
}

} // verus!
