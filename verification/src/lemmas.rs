//! Facts about the model that the parser's proofs rest on.

use crate::model::{
    buffered_weight, dispatch_outcome, feed_byte_outcome, feed_outcome,
    field_name, first_index, flush_bom_outcome, is_first_index, line_field, line_outcome,
    line_value, no_terminator, ok_outcome, pending_line_outcome, stream_byte_outcome, stream_outcome,
    strip_one_space, then_outcome, all_digits, Outcome, decimal_value, EventModel, FieldName, ParserModel,
};
use vstd::prelude::*;

verus! {

/// Streaming `a + b` is streaming `a`, then (unless that failed) `b`.
pub proof fn lemma_stream_concat(m: ParserModel, a: Seq<u8>, b: Seq<u8>)
    ensures
        stream_outcome(m, a + b) == ({
            let oa = stream_outcome(m, a);
            if oa.error is Some {
                oa
            } else {
                then_outcome(oa, stream_outcome(oa.state, b))
            }
        }),
    decreases b.len(),
{
    let oa = stream_outcome(m, a);
    if b.len() == 0 {
        assert(a + b =~= a);
        assert(oa.events + Seq::<EventModel>::empty() =~= oa.events);
    } else {
        assert((a + b).drop_last() =~= a + b.drop_last());
        assert((a + b).last() == b.last());
        lemma_stream_concat(m, a, b.drop_last());
        if oa.error is None {
            let ob = stream_outcome(oa.state, b.drop_last());
            if ob.error is None {
                let oc = stream_byte_outcome(ob.state, b.last());
                assert(oa.events + ob.events + oc.events =~= oa.events + (ob.events + oc.events));
            }
        }
    }
}

/// Feeding `a + b` is feeding `a`, then (unless that failed) `b`.
pub proof fn lemma_feed_concat(m: ParserModel, a: Seq<u8>, b: Seq<u8>)
    ensures
        feed_outcome(m, a + b) == ({
            let oa = feed_outcome(m, a);
            if oa.error is Some {
                oa
            } else {
                then_outcome(oa, feed_outcome(oa.state, b))
            }
        }),
    decreases b.len(),
{
    let oa = feed_outcome(m, a);
    if b.len() == 0 {
        assert(a + b =~= a);
        assert(oa.events + Seq::<EventModel>::empty() =~= oa.events);
    } else {
        assert((a + b).drop_last() =~= a + b.drop_last());
        assert((a + b).last() == b.last());
        lemma_feed_concat(m, a, b.drop_last());
        if oa.error is None {
            let ob = feed_outcome(oa.state, b.drop_last());
            if ob.error is None {
                let oc = feed_byte_outcome(ob.state, b.last());
                assert(oa.events + ob.events + oc.events =~= oa.events + (ob.events + oc.events));
            }
        }
    }
}

/// Bytes that end no line are appended to the line buffer.
pub proof fn lemma_stream_plain(m: ParserModel, s: Seq<u8>)
    requires
        no_terminator(s),
    ensures
        stream_outcome(m, s) == ok_outcome(
            ParserModel {
                line: m.line + s,
                skip_lf: if s.len() == 0 {
                    m.skip_lf
                } else {
                    false
                },
                ..m
            },
        ),
    decreases s.len(),
{
    if s.len() == 0 {
        assert(m.line + s =~= m.line);
    } else {
        let p = s.drop_last();
        assert(no_terminator(p)) by {
            assert forall|i: int| 0 <= i < p.len() implies #[trigger] p[i] != 0x0a && p[i] != 0x0d by {
                assert(p[i] == s[i]);
            }
        }
        lemma_stream_plain(m, p);
        assert(s.last() == s[s.len() - 1]);
        assert((m.line + p).push(s.last()) =~= m.line + s);
        assert(Seq::<EventModel>::empty() + Seq::<EventModel>::empty() =~= Seq::<EventModel>::empty());
    }
}

/// A run of bytes that ends at its first terminator: the line held so far
/// plus the run is processed as one line.
pub proof fn lemma_stream_line(m: ParserModel, seg: Seq<u8>, term: u8)
    requires
        no_terminator(seg),
        term == 0x0a || term == 0x0d,
        m.skip_lf && seg.len() == 0 ==> term != 0x0a,
    ensures
        stream_outcome(m, seg.push(term)) == stream_byte_outcome(
            ParserModel { line: m.line + seg, skip_lf: false, ..m },
            term,
        ),
{
    let whole = seg.push(term);
    assert(whole.drop_last() =~= seg);
    lemma_stream_plain(m, seg);
    let o = stream_outcome(m, seg);
    let m1 = ParserModel { line: m.line + seg, skip_lf: false, ..m };
    let ob = stream_byte_outcome(o.state, term);
    if seg.len() == 0 {
        assert(m.line + seg =~= m.line);
    }
    assert(o.events + ob.events =~= ob.events);
}

/// Processing a line leaves the byte order mark fields, the line buffer and
/// the pending line ending alone.
pub proof fn lemma_line_keeps(m: ParserModel, line: Seq<u8>)
    ensures
        line_outcome(m, line).state.bom == m.bom,
        line_outcome(m, line).state.bom_resolved == m.bom_resolved,
        line_outcome(m, line).state.line == m.line,
        line_outcome(m, line).state.skip_lf == m.skip_lf,
{
    reveal(line_outcome);
    reveal(dispatch_outcome);
}

/// Stream bytes leave the byte order mark fields alone.
pub proof fn lemma_stream_keeps_bom(m: ParserModel, bytes: Seq<u8>)
    ensures
        stream_outcome(m, bytes).state.bom == m.bom,
        stream_outcome(m, bytes).state.bom_resolved == m.bom_resolved,
    decreases bytes.len(),
{
    if bytes.len() > 0 {
        lemma_stream_keeps_bom(m, bytes.drop_last());
        let o = stream_outcome(m, bytes.drop_last());
        let s1 = ParserModel { skip_lf: false, ..o.state };
        lemma_line_keeps(ParserModel { line: Seq::empty(), ..s1 }, s1.line);
    }
}

/// Once the byte order mark is settled, feeding is streaming.
pub proof fn lemma_feed_resolved(m: ParserModel, bytes: Seq<u8>)
    requires
        m.bom_resolved,
    ensures
        feed_outcome(m, bytes) == stream_outcome(m, bytes),
    decreases bytes.len(),
{
    if bytes.len() > 0 {
        lemma_feed_resolved(m, bytes.drop_last());
        lemma_stream_keeps_bom(m, bytes.drop_last());
    }
}

/// Facts about the first colon of a `data` line.
pub proof fn lemma_data_value_len(line: Seq<u8>)
    requires
        field_name(line_field(line)) == FieldName::Data,
    ensures
        line_value(line).len() + 1 <= line.len(),
{
    match first_index(line, 0x3a) {
        Some(i) => {
            let w = choose|i: int| is_first_index(line, 0x3a, i);
            assert(is_first_index(line, 0x3a, w));
            assert(line.take(i).len() == 4);
            assert(strip_one_space(line.skip(i + 1)).len() <= line.skip(i + 1).len());
        },
        None => {},
    }
}

/// Processing a line of `n` bytes that is not in the buffer raises the
/// weight by at most `n`.
pub proof fn lemma_line_weight(m: ParserModel, line: Seq<u8>)
    ensures
        buffered_weight(line_outcome(m, line).state) <= buffered_weight(m) + line.len(),
{
    reveal(line_outcome);
    reveal(dispatch_outcome);
    if line.len() > 0 && line[0] != 0x3a && field_name(line_field(line)) == FieldName::Data {
        lemma_data_value_len(line);
    }
}

/// One stream byte raises the weight by at most one.
pub proof fn lemma_stream_byte_weight(m: ParserModel, b: u8)
    ensures
        buffered_weight(stream_byte_outcome(m, b).state) <= buffered_weight(m) + 1,
{
    let m1 = ParserModel { skip_lf: false, ..m };
    lemma_line_weight(ParserModel { line: Seq::empty(), ..m1 }, m1.line);
}

/// Stream bytes raise the weight by at most one each.
pub proof fn lemma_stream_weight(m: ParserModel, bytes: Seq<u8>)
    ensures
        buffered_weight(stream_outcome(m, bytes).state) <= buffered_weight(m) + bytes.len(),
    decreases bytes.len(),
{
    if bytes.len() > 0 {
        lemma_stream_weight(m, bytes.drop_last());
        let o = stream_outcome(m, bytes.drop_last());
        lemma_stream_byte_weight(o.state, bytes.last());
    }
}

/// Giving up on the byte order mark does not raise the weight.
pub proof fn lemma_flush_bom_weight(m: ParserModel)
    ensures
        buffered_weight(flush_bom_outcome(m).state) <= buffered_weight(m),
{
    if !m.bom_resolved {
        lemma_stream_weight(ParserModel { bom: Seq::empty(), bom_resolved: true, ..m }, m.bom);
    }
}

/// Input bytes raise the weight by at most one each.
pub proof fn lemma_feed_weight(m: ParserModel, bytes: Seq<u8>)
    ensures
        buffered_weight(feed_outcome(m, bytes).state) <= buffered_weight(m) + bytes.len(),
    decreases bytes.len(),
{
    if bytes.len() > 0 {
        lemma_feed_weight(m, bytes.drop_last());
        let o = feed_outcome(m, bytes.drop_last());
        let b = bytes.last();
        if o.state.bom_resolved {
            lemma_stream_byte_weight(o.state, b);
        } else {
            lemma_flush_bom_weight(ParserModel { bom: o.state.bom.push(b), ..o.state });
        }
    }
}

/// The first position of a byte is the one position that no earlier
/// occurrence precedes.
pub proof fn lemma_first_index(s: Seq<u8>, b: u8, i: int)
    requires
        is_first_index(s, b, i),
    ensures
        first_index(s, b) == Some(i),
{
    let w = choose|k: int| is_first_index(s, b, k);
    assert(is_first_index(s, b, w));
    if w < i {
        assert(s[w] == b);
    } else if i < w {
        assert(s[i] == b);
    }
}

/// A byte that does not occur has no first position.
pub proof fn lemma_no_index(s: Seq<u8>, b: u8)
    requires
        forall|j: int| 0 <= j < s.len() ==> s[j] != b,
    ensures
        first_index(s, b) is None,
{
    if exists|k: int| is_first_index(s, b, k) {
        let w = choose|k: int| is_first_index(s, b, k);
        assert(s[w] == b);
    }
}

/// The value of a prefix of a digit string is at most that of the whole.
pub proof fn lemma_decimal_prefix(s: Seq<u8>, j: int)
    requires
        all_digits(s),
        0 <= j <= s.len(),
    ensures
        0 <= decimal_value(s.take(j)) <= decimal_value(s),
    decreases s.len() - j,
{
    if j < s.len() {
        lemma_decimal_prefix(s, j + 1);
        let t = s.take(j + 1);
        assert(t.drop_last() =~= s.take(j));
        assert(t.last() == s[j]);
        assert(0x30 <= s[j] <= 0x39);
    } else {
        assert(s.take(j) =~= s);
        lemma_decimal_nonneg(s);
    }
}

/// The value of a digit string is not negative.
pub proof fn lemma_decimal_nonneg(s: Seq<u8>)
    requires
        all_digits(s),
    ensures
        decimal_value(s) >= 0,
    decreases s.len(),
{
    if s.len() > 0 {
        let p = s.drop_last();
        assert(all_digits(p)) by {
            assert forall|i: int| 0 <= i < p.len() implies crate::model::is_digit(#[trigger] p[i]) by {
                assert(p[i] == s[i]);
            }
        }
        lemma_decimal_nonneg(p);
        assert(s.last() == s[s.len() - 1]);
    }
}

/// How many bytes the line ending at `s[line_end]` takes: two for a `\r\n`
/// pair inside `s`, otherwise one.
pub open spec fn line_ending_len(s: Seq<u8>, line_end: int) -> int {
    if s[line_end] == 0x0d && line_end + 1 < s.len() && s[line_end + 1] == 0x0a {
        2
    } else {
        1
    }
}

/// `r` is what searching `s` for a line terminator gives: the position of
/// the first one, or `None` where there is none.
pub open spec fn found_line_end(s: Seq<u8>, r: Option<usize>) -> bool {
    match r {
        Some(i) => i < s.len() && (s[i as int] == 0x0a || s[i as int] == 0x0d) && no_terminator(
            s.take(i as int),
        ),
        None => no_terminator(s),
    }
}

/// Where a line-at-a-time scan of `whole` stands after `pos` bytes, with the
/// parser in state `cur`: `cur` is the byte-level state, except that a
/// pending `\r\n` check is settled at once where the next byte is known.
pub open spec fn scan_state(m0: ParserModel, whole: Seq<u8>, pos: int, cur: ParserModel) -> bool {
    let o = stream_outcome(m0, whole.take(pos));
    &&& 0 <= pos <= whole.len()
    &&& o.error is None
    &&& cur == (ParserModel { skip_lf: cur.skip_lf, ..o.state })
    &&& pos < whole.len() ==> !cur.skip_lf && (o.state.skip_lf ==> whole[pos] != 0x0a)
    &&& pos == whole.len() ==> cur.skip_lf == o.state.skip_lf
}

/// The state in which the line found `line_end` bytes past `pos` is
/// processed: the line buffer holds the whole line.
pub open spec fn scanned_line_model(m0: ParserModel, whole: Seq<u8>, pos: int, line_end: int) -> ParserModel {
    let st = stream_outcome(m0, whole.take(pos)).state;
    ParserModel { line: st.line + whole.skip(pos).take(line_end), skip_lf: false, ..st }
}

/// A scan starts at the first byte, or past a `\n` that completes a `\r\n`.
pub proof fn lemma_scan_start(m0: ParserModel, whole: Seq<u8>)
    requires
        whole.len() > 0,
    ensures
        ({
            let pos = if m0.skip_lf && whole[0] == 0x0a {
                1int
            } else {
                0
            };
            &&& scan_state(m0, whole, pos, ParserModel { skip_lf: false, ..m0 })
            &&& stream_outcome(m0, whole.take(pos)).events == Seq::<EventModel>::empty()
        }),
{
    assert(whole.take(0) =~= Seq::<u8>::empty());
    assert(whole.take(1).drop_last() =~= whole.take(0));
    assert(whole.take(1).last() == whole[0]);
    assert(Seq::<EventModel>::empty() + Seq::<EventModel>::empty() =~= Seq::<EventModel>::empty());
    let o0 = stream_outcome(m0, whole.take(0));
    assert(o0 == ok_outcome(m0));
    if m0.skip_lf && whole[0] == 0x0a {
        let o1 = stream_outcome(m0, whole.take(1));
        assert(o1 == then_outcome(o0, stream_byte_outcome(m0, whole[0])));
        assert(o1.state == ParserModel { skip_lf: false, ..m0 });
        assert(o1.events =~= Seq::<EventModel>::empty());
    }
}

/// One step of the scan: the line found is processed; on an error the whole
/// chunk ends there, otherwise the scan moves past the line ending.
pub proof fn lemma_scan_line(m0: ParserModel, whole: Seq<u8>, pos: int, line_end: int, cur: ParserModel)
    requires
        scan_state(m0, whole, pos, cur),
        0 <= line_end < whole.skip(pos).len(),
        line_end <= usize::MAX,
        found_line_end(whole.skip(pos), Some(line_end as usize)),
    ensures
        buffered_weight(scanned_line_model(m0, whole, pos, line_end)) <= buffered_weight(m0)
            + whole.len(),
        pending_line_outcome(scanned_line_model(m0, whole, pos, line_end)).state.skip_lf == false,
        ({
            let o = stream_outcome(m0, whole.take(pos));
            let p = pending_line_outcome(scanned_line_model(m0, whole, pos, line_end));
            let rest = whole.skip(pos);
            let new_pos = pos + line_end + line_ending_len(rest, line_end);
            let cur2 = ParserModel {
                skip_lf: rest[line_end] == 0x0d && line_end + 1 == rest.len(),
                ..p.state
            };
            &&& p.error is Some ==> stream_outcome(m0, whole) == then_outcome(o, p)
            &&& p.error is None ==> scan_state(m0, whole, new_pos, cur2)
            &&& p.error is None ==> stream_outcome(m0, whole.take(new_pos)).events == o.events
                + p.events
        }),
{
    let o = stream_outcome(m0, whole.take(pos));
    let st = o.state;
    let rest = whole.skip(pos);
    assert((line_end as usize) as int == line_end);
    let seg = rest.take(line_end);
    let term = rest[line_end];
    let piece = rest.take(line_end + 1);
    let m1 = scanned_line_model(m0, whole, pos, line_end);
    let p = pending_line_outcome(m1);
    assert(piece =~= seg.push(term));
    assert(rest[0] == whole[pos]);
    lemma_stream_weight(m0, whole.take(pos));
    lemma_stream_line(st, seg, term);
    lemma_line_keeps(ParserModel { line: Seq::empty(), ..m1 }, m1.line);
    lemma_stream_concat(m0, whole.take(pos), rest);
    assert(whole.take(pos) + rest =~= whole);
    lemma_stream_concat(st, piece, rest.skip(line_end + 1));
    assert(piece + rest.skip(line_end + 1) =~= rest);
    if p.error is None {
        let k = line_ending_len(rest, line_end);
        let new_pos = pos + line_end + k;
        assert(whole.take(new_pos) =~= whole.take(pos) + rest.take(line_end + k));
        lemma_stream_concat(m0, whole.take(pos), rest.take(line_end + k));
        if k == 2 {
            let piece2 = rest.take(line_end + 2);
            assert(piece2.drop_last() =~= piece);
            assert(piece2.last() == 0x0a);
            let rr = stream_outcome(st, piece);
            assert(rr.events + Seq::<EventModel>::empty() =~= rr.events);
        } else {
            assert(rest.take(line_end + k) =~= piece);
        }
        if new_pos < whole.len() {
            assert(whole[new_pos] == rest[line_end + k]);
        }
    }
}

/// The end of a scan: what is left holds no terminator and joins the line
/// buffer.
pub proof fn lemma_scan_end(m0: ParserModel, whole: Seq<u8>, pos: int, cur: ParserModel)
    requires
        scan_state(m0, whole, pos, cur),
        no_terminator(whole.skip(pos)),
    ensures
        cur.line.len() + whole.skip(pos).len() <= buffered_weight(m0) + whole.len(),
        ({
            let o = stream_outcome(m0, whole.take(pos));
            let rest = whole.skip(pos);
            stream_outcome(m0, whole) == Outcome {
                state: if rest.len() == 0 {
                    cur
                } else {
                    ParserModel { line: cur.line + rest, ..cur }
                },
                events: o.events,
                error: None,
            }
        }),
{
    let o = stream_outcome(m0, whole.take(pos));
    let rest = whole.skip(pos);
    lemma_stream_weight(m0, whole.take(pos));
    lemma_stream_concat(m0, whole.take(pos), rest);
    assert(whole.take(pos) + rest =~= whole);
    lemma_stream_plain(o.state, rest);
    assert(o.events + Seq::<EventModel>::empty() =~= o.events);
    if rest.len() == 0 {
        assert(o.state.line + rest =~= o.state.line);
    }
}

} // verus!
