//! What each kind of line does, stated over the bytes fed: a field line
//! `name: value` followed by `\n`, a blank line, and whole events. The
//! statements name the expected state and events directly.

use crate::lemmas::{
    lemma_feed_concat, lemma_feed_resolved, lemma_first_index, lemma_stream_line,
};
use crate::model::{
    all_digits, decimal_value, dispatch_outcome, err_outcome, feed_outcome, finish_outcome,
    flush_bom_outcome, is_first_index, line_field, line_outcome, line_value, no_terminator,
    ok_outcome, pending_line_outcome, retry_value, then_outcome, utf8_bom, well_formed,
    EventModel, Outcome, ParserModel,
};
use vstd::prelude::*;

verus! {

/// The bytes `: ` that separate a field name from its value.
pub open spec fn separator() -> Seq<u8> {
    seq![0x3au8, 0x20]
}

/// The line `name: value` followed by `\n`.
pub open spec fn field_line(name: Seq<u8>, value: Seq<u8>) -> Seq<u8> {
    name + separator() + value + seq![0x0au8]
}

pub open spec fn name_id() -> Seq<u8> {
    seq![0x69u8, 0x64]
}

pub open spec fn name_event() -> Seq<u8> {
    seq![0x65u8, 0x76, 0x65, 0x6e, 0x74]
}

pub open spec fn name_data() -> Seq<u8> {
    seq![0x64u8, 0x61, 0x74, 0x61]
}

pub open spec fn name_retry() -> Seq<u8> {
    seq![0x72u8, 0x65, 0x74, 0x72, 0x79]
}

/// A parser between lines: the byte order mark settled, no `\r` pending and
/// no partial line held.
pub open spec fn at_line_start(m: ParserModel) -> bool {
    m.bom_resolved && !m.skip_lf && m.line.len() == 0
}

/// The decimal digits of `n`, most significant first, without leading zeros.
pub open spec fn decimal_digits(n: nat) -> Seq<u8>
    decreases n,
{
    if n < 10 {
        seq![(0x30 + n) as u8]
    } else {
        decimal_digits(n / 10).push((0x30 + n % 10) as u8)
    }
}

/// Values joined by `\n`.
pub open spec fn join_lines(vs: Seq<Seq<u8>>) -> Seq<u8>
    decreases vs.len(),
{
    if vs.len() == 0 {
        Seq::empty()
    } else if vs.len() == 1 {
        vs[0]
    } else {
        join_lines(vs.drop_last()) + seq![0x0au8] + vs.last()
    }
}

/// One `data: v` line for each value, in order.
pub open spec fn data_lines(vs: Seq<Seq<u8>>) -> Seq<u8>
    decreases vs.len(),
{
    if vs.len() == 0 {
        Seq::empty()
    } else {
        data_lines(vs.drop_last()) + field_line(name_data(), vs.last())
    }
}

/// A field line fed between lines is processed as that line.
proof fn lemma_field_line(m: ParserModel, name: Seq<u8>, v: Seq<u8>)
    requires
        at_line_start(m),
        no_terminator(name),
        no_terminator(v),
        name.len() > 0,
        forall|i: int| 0 <= i < name.len() ==> name[i] != 0x3a,
    ensures
        feed_outcome(m, field_line(name, v)) == line_outcome(m, name + separator() + v),
        line_field(name + separator() + v) == name,
        line_value(name + separator() + v) == v,
        (name + separator() + v)[0] != 0x3a,
        (name + separator() + v).len() > 0,
{
    let l = name + separator() + v;
    assert(no_terminator(l)) by {
        assert forall|i: int| 0 <= i < l.len() implies #[trigger] l[i] != 0x0a && l[i] != 0x0d by {
            if i < name.len() {
                assert(l[i] == name[i]);
            } else if i >= name.len() + 2 {
                assert(l[i] == v[i - name.len() - 2]);
            }
        }
    }
    assert(field_line(name, v) =~= l.push(0x0a));
    lemma_feed_resolved(m, l.push(0x0a));
    lemma_stream_line(m, l, 0x0a);
    assert(m.line + l =~= l);
    let m1 = ParserModel { line: l, skip_lf: false, ..m };
    assert(ParserModel { line: Seq::empty(), ..m1 } == m);
    assert(is_first_index(l, 0x3a, name.len() as int)) by {
        assert forall|j: int| 0 <= j < name.len() implies l[j] != 0x3a by {
            assert(l[j] == name[j]);
        }
    }
    lemma_first_index(l, 0x3a, name.len() as int);
    assert(l.take(name.len() as int) =~= name);
    assert(l.skip(name.len() as int + 1) =~= seq![0x20u8] + v);
    assert((seq![0x20u8] + v).drop_first() =~= v);
    assert(l[0] == name[0]);
}

/// A complete line fed between lines is processed as that line.
proof fn lemma_line_fed(m: ParserModel, l: Seq<u8>)
    requires
        at_line_start(m),
        no_terminator(l),
    ensures
        feed_outcome(m, l + seq![0x0au8]) == line_outcome(m, l),
{
    assert(l + seq![0x0au8] =~= l.push(0x0a));
    lemma_feed_resolved(m, l.push(0x0a));
    lemma_stream_line(m, l, 0x0a);
    assert(m.line + l =~= l);
    let m1 = ParserModel { line: l, skip_lf: false, ..m };
    assert(ParserModel { line: Seq::empty(), ..m1 } == m);
}

/// The fields that the parser acts on.
pub open spec fn is_known_field(name: Seq<u8>) -> bool {
    name == name_id() || name == name_event() || name == name_data() || name == name_retry()
}

/// A line whose field is none of `id`, `event`, `data` and `retry` changes
/// nothing and emits nothing.
pub proof fn law_unknown_field(m: ParserModel, name: Seq<u8>, v: Seq<u8>)
    requires
        at_line_start(m),
        no_terminator(name),
        no_terminator(v),
        name.len() > 0,
        forall|i: int| 0 <= i < name.len() ==> name[i] != 0x3a,
        !is_known_field(name),
    ensures
        feed_outcome(m, field_line(name, v)) == ok_outcome(m),
{
    lemma_field_line(m, name, v);
    reveal(line_outcome);
}

/// A field name alone on a line acts as that field with an empty value, and
/// a value that does not start with a space may follow the colon directly.
pub proof fn law_field_forms(m: ParserModel, name: Seq<u8>, v: Seq<u8>)
    requires
        at_line_start(m),
        no_terminator(name),
        no_terminator(v),
        name.len() > 0,
        forall|i: int| 0 <= i < name.len() ==> name[i] != 0x3a,
    ensures
        feed_outcome(m, name + seq![0x0au8]) == feed_outcome(m, field_line(name, Seq::empty())),
        v.len() == 0 || v[0] != 0x20 ==> feed_outcome(m, name + seq![0x3au8] + v + seq![0x0au8])
            == feed_outcome(m, field_line(name, v)),
{
    lemma_field_line(m, name, Seq::empty());
    lemma_field_line(m, name, v);
    lemma_line_fed(m, name);
    let l2 = name + seq![0x3au8] + v;
    assert(no_terminator(l2)) by {
        assert forall|i: int| 0 <= i < l2.len() implies #[trigger] l2[i] != 0x0a && l2[i] != 0x0d by {
            if i < name.len() {
                assert(l2[i] == name[i]);
            } else if i > name.len() {
                assert(l2[i] == v[i - name.len() - 1]);
            }
        }
    }
    lemma_line_fed(m, l2);
    assert(is_first_index(l2, 0x3a, name.len() as int)) by {
        assert forall|j: int| 0 <= j < name.len() implies l2[j] != 0x3a by {
            assert(l2[j] == name[j]);
        }
    }
    lemma_first_index(l2, 0x3a, name.len() as int);
    assert(l2.take(name.len() as int) =~= name);
    assert(l2.skip(name.len() as int + 1) =~= v);
    assert(forall|j: int| 0 <= j < name.len() ==> name[j] != 0x3a);
    if crate::model::first_index(name, 0x3a) is Some {
        let w = choose|k: int| is_first_index(name, 0x3a, k);
        assert(is_first_index(name, 0x3a, w));
    }
    assert(l2[0] == name[0]);
    reveal(line_outcome);
}

/// An `id` line sets the last event id to its value, whatever the pending
/// event holds; a value with a NUL byte is ignored, and one that is not
/// UTF-8 is an error on the `id` field that changes nothing.
pub proof fn law_id_line(m: ParserModel, v: Seq<u8>)
    requires
        at_line_start(m),
        no_terminator(v),
    ensures
        !v.contains(0u8) && vstd::utf8::valid_utf8(v) ==> feed_outcome(m, field_line(name_id(), v))
            == ok_outcome(
            ParserModel { last_event_id: Some(vstd::utf8::decode_utf8(v)), ..m },
        ),
        v.contains(0u8) ==> feed_outcome(m, field_line(name_id(), v)) == ok_outcome(m),
        !v.contains(0u8) && !vstd::utf8::valid_utf8(v) ==> feed_outcome(m, field_line(name_id(), v))
            == err_outcome(m, "id"@),
{
    lemma_field_line(m, name_id(), v);
    reveal(line_outcome);
}

/// An `event` line sets the event type to its value, whatever the pending
/// event holds; a value that is not UTF-8 is an error on the `event` field
/// that changes nothing.
pub proof fn law_event_line(m: ParserModel, v: Seq<u8>)
    requires
        at_line_start(m),
        no_terminator(v),
    ensures
        vstd::utf8::valid_utf8(v) ==> feed_outcome(m, field_line(name_event(), v)) == ok_outcome(
            ParserModel { event_type: vstd::utf8::decode_utf8(v), ..m },
        ),
        !vstd::utf8::valid_utf8(v) ==> feed_outcome(m, field_line(name_event(), v)) == err_outcome(
            m,
            "event"@,
        ),
{
    lemma_field_line(m, name_event(), v);
    reveal(line_outcome);
}

/// A `data` line appends its value and a `\n` to the pending data, whatever
/// it holds, an empty value included.
pub proof fn law_data_line(m: ParserModel, v: Seq<u8>)
    requires
        at_line_start(m),
        no_terminator(v),
    ensures
        feed_outcome(m, field_line(name_data(), v)) == ok_outcome(
            ParserModel { data: m.data + v + seq![0x0au8], ..m },
        ),
{
    lemma_field_line(m, name_data(), v);
    reveal(line_outcome);
}

/// A `retry` line with the decimal digits of `n` sets the reconnection time
/// to `n`, and the digits of any `u64` are a valid retry value.
pub proof fn law_retry_line(m: ParserModel, n: u64)
    requires
        at_line_start(m),
    ensures
        retry_value(decimal_digits(n as nat)) == Some(n),
        feed_outcome(m, field_line(name_retry(), decimal_digits(n as nat))) == ok_outcome(
            ParserModel { retry: Some(n), ..m },
        ),
{
    lemma_decimal_digits(n as nat);
    let d = decimal_digits(n as nat);
    assert(no_terminator(d)) by {
        assert forall|i: int| 0 <= i < d.len() implies #[trigger] d[i] != 0x0a && d[i] != 0x0d by {
            assert(crate::model::is_digit(d[i]));
        }
    }
    lemma_field_line(m, name_retry(), d);
    reveal(line_outcome);
}

/// A `retry` line whose value is empty or holds a byte that is not a digit
/// leaves the reconnection time as it was; so does one whose digits denote
/// a number past `u64::MAX`.
pub proof fn law_retry_ignored(m: ParserModel, v: Seq<u8>, big: nat)
    requires
        at_line_start(m),
        no_terminator(v),
        big > u64::MAX,
    ensures
        v.len() == 0 || (exists|i: int| 0 <= i < v.len() && !(0x30 <= #[trigger] v[i] <= 0x39))
            ==> feed_outcome(m, field_line(name_retry(), v)) == ok_outcome(m),
        feed_outcome(m, field_line(name_retry(), decimal_digits(big))) == ok_outcome(m),
{
    lemma_field_line(m, name_retry(), v);
    lemma_decimal_digits(big);
    let d = decimal_digits(big);
    assert(no_terminator(d)) by {
        assert forall|i: int| 0 <= i < d.len() implies #[trigger] d[i] != 0x0a && d[i] != 0x0d by {
            assert(crate::model::is_digit(d[i]));
        }
    }
    lemma_field_line(m, name_retry(), d);
    reveal(line_outcome);
}

/// The decimal digits of `n` are digits, and denote `n`.
proof fn lemma_decimal_digits(n: nat)
    ensures
        decimal_digits(n).len() > 0,
        all_digits(decimal_digits(n)),
        decimal_value(decimal_digits(n)) == n,
    decreases n,
{
    let d = decimal_digits(n);
    if n < 10 {
        assert(d.drop_last() =~= Seq::<u8>::empty());
        assert(decimal_value(d.drop_last()) == 0);
        assert(d.last() == (0x30 + n) as u8);
        assert(d.last() - 0x30 == n);
    } else {
        lemma_decimal_digits(n / 10);
        let p = decimal_digits(n / 10);
        assert(d.drop_last() =~= p);
        assert(d.last() == (0x30 + n % 10) as u8);
        assert(n == (n / 10) * 10 + n % 10) by (nonlinear_arith);
        assert(n % 10 < 10);
        assert(d.last() - 0x30 == n % 10);
        assert(decimal_value(d) == decimal_value(p) * 10 + (d.last() - 0x30));
        assert forall|i: int| 0 <= i < d.len() implies crate::model::is_digit(#[trigger] d[i]) by {
            if i < p.len() {
                assert(d[i] == p[i]);
            }
        }
    }
}

/// A blank line with no data pending emits nothing and only clears the
/// event type; pending data that is not UTF-8 is an error on the `data`
/// field that changes nothing.
pub proof fn law_blank_line_edge(m: ParserModel)
    requires
        at_line_start(m),
    ensures
        m.data.len() == 0 ==> feed_outcome(m, seq![0x0au8]) == ok_outcome(
            ParserModel { event_type: Seq::empty(), ..m },
        ),
        m.data.len() > 0 && m.data.last() == 0x0a && !vstd::utf8::valid_utf8(m.data.drop_last())
            ==> feed_outcome(m, seq![0x0au8]) == err_outcome(m, "data"@),
{
    let e = Seq::<u8>::empty();
    assert(e + seq![0x0au8] =~= seq![0x0au8]);
    lemma_line_fed(m, e);
    reveal(line_outcome);
    reveal(dispatch_outcome);
}

/// A blank line dispatches the pending event: its type is the event type
/// set, or `message` where none was, its data the pending data without the
/// final `\n`, and its id the last event id; the data and the event type
/// are then cleared, and the last event id stays.
pub proof fn law_blank_line(m: ParserModel)
    requires
        at_line_start(m),
        m.data.len() > 0,
        m.data.last() == 0x0a,
        vstd::utf8::valid_utf8(m.data.drop_last()),
    ensures
        feed_outcome(m, seq![0x0au8]) == (Outcome {
            state: ParserModel { data: Seq::empty(), event_type: Seq::empty(), ..m },
            events: seq![
                EventModel {
                    event: if m.event_type.len() == 0 {
                        "message"@
                    } else {
                        m.event_type
                    },
                    data: vstd::utf8::decode_utf8(m.data.drop_last()),
                    id: m.last_event_id,
                },
            ],
            error: None,
        }),
{
    let e = Seq::<u8>::empty();
    assert(seq![0x0au8] =~= e.push(0x0a));
    lemma_feed_resolved(m, e.push(0x0a));
    lemma_stream_line(m, e, 0x0a);
    assert(m.line + e =~= e);
    let m1 = ParserModel { line: e, skip_lf: false, ..m };
    assert(ParserModel { line: Seq::empty(), ..m1 } == m);
    reveal(line_outcome);
    reveal(dispatch_outcome);
}

/// The `\n`-terminated values of `vs`, one after the other.
spec fn data_block(vs: Seq<Seq<u8>>) -> Seq<u8>
    decreases vs.len(),
{
    if vs.len() == 0 {
        Seq::empty()
    } else {
        data_block(vs.drop_last()) + vs.last() + seq![0x0au8]
    }
}

/// Data lines append each value and a `\n` to the pending data.
proof fn lemma_data_lines(m: ParserModel, vs: Seq<Seq<u8>>)
    requires
        at_line_start(m),
        forall|i: int| 0 <= i < vs.len() ==> no_terminator(#[trigger] vs[i]),
    ensures
        feed_outcome(m, data_lines(vs)) == ok_outcome(
            ParserModel { data: m.data + data_block(vs), ..m },
        ),
        vs.len() > 0 ==> data_block(vs) == join_lines(vs) + seq![0x0au8],
    decreases vs.len(),
{
    if vs.len() == 0 {
        assert(m.data + data_block(vs) =~= m.data);
        assert(feed_outcome(m, Seq::<u8>::empty()) == ok_outcome(m));
    } else {
        let p = vs.drop_last();
        assert forall|i: int| 0 <= i < p.len() implies no_terminator(#[trigger] p[i]) by {
            assert(p[i] == vs[i]);
        }
        lemma_data_lines(m, p);
        let o = feed_outcome(m, data_lines(p));
        lemma_feed_concat(m, data_lines(p), field_line(name_data(), vs.last()));
        assert(no_terminator(vs[vs.len() - 1]));
        law_data_line(o.state, vs.last());
        assert(m.data + data_block(p) + vs.last() + seq![0x0au8] =~= m.data + data_block(vs));
        assert(Seq::<EventModel>::empty() + Seq::<EventModel>::empty() =~= Seq::<
            EventModel,
        >::empty());
        if vs.len() == 1 {
            assert(data_block(p) =~= Seq::<u8>::empty());
            assert(data_block(vs) =~= join_lines(vs) + seq![0x0au8]);
        } else {
            assert(data_block(vs) =~= join_lines(vs) + seq![0x0au8]);
        }
    }
}

/// An event made of data lines: from a state with no pending data, data
/// lines with values `vs` (at least one) and a blank line emit exactly one
/// event, whose data is the values joined by `\n`, every value counting,
/// empty ones included.
pub proof fn law_data_event(m: ParserModel, vs: Seq<Seq<u8>>)
    requires
        at_line_start(m),
        m.data.len() == 0,
        vs.len() > 0,
        forall|i: int| 0 <= i < vs.len() ==> no_terminator(#[trigger] vs[i]),
        vstd::utf8::valid_utf8(join_lines(vs)),
    ensures
        feed_outcome(m, data_lines(vs) + seq![0x0au8]).error is None,
        feed_outcome(m, data_lines(vs) + seq![0x0au8]).events == seq![
            EventModel {
                event: if m.event_type.len() == 0 {
                    "message"@
                } else {
                    m.event_type
                },
                data: vstd::utf8::decode_utf8(join_lines(vs)),
                id: m.last_event_id,
            },
        ],
{
    lemma_data_lines(m, vs);
    let o = feed_outcome(m, data_lines(vs));
    lemma_feed_concat(m, data_lines(vs), seq![0x0au8]);
    assert(o.state.data =~= join_lines(vs) + seq![0x0au8]);
    assert(o.state.data.drop_last() =~= join_lines(vs));
    law_blank_line(o.state);
    assert(o.events + feed_outcome(o.state, seq![0x0au8]).events =~= feed_outcome(
        o.state,
        seq![0x0au8],
    ).events);
}

/// `finish` emits its event from the state it leaves: the event carries
/// the last event id that the parser then reports. (A well formed state
/// emits nothing before the final dispatch.)
pub proof fn law_finish_event_id(m: ParserModel)
    requires
        well_formed(m),
    ensures
        forall|i: int|
            0 <= i < finish_outcome(m).events.len() ==> (#[trigger] finish_outcome(m).events[i]).id
                == finish_outcome(m).state.last_event_id,
{
    reveal(line_outcome);
    reveal(dispatch_outcome);
    crate::laws::law_finish_one_event(m);
    if !m.bom_resolved {
        let bom = m.bom;
        assert(no_terminator(bom)) by {
            assert forall|i: int| 0 <= i < bom.len() implies #[trigger] bom[i] != 0x0a && bom[i]
                != 0x0d by {
                assert(bom[i] == utf8_bom().take(bom.len() as int)[i]);
            }
        }
        crate::lemmas::lemma_stream_plain(
            ParserModel { bom: Seq::empty(), bom_resolved: true, ..m },
            m.bom,
        );
    }
    let o1 = flush_bom_outcome(m);
    assert(o1.events.len() == 0);
    if o1.error is None {
        let s1 = o1.state;
        let o2 = if s1.line.len() > 0 {
            pending_line_outcome(s1)
        } else {
            ok_outcome(s1)
        };
        assert(o2.events.len() == 0);
        if o2.error is None {
            let o3 = dispatch_outcome(ParserModel { skip_lf: false, ..o2.state });
            assert(finish_outcome(m) == then_outcome(then_outcome(o1, o2), o3));
            assert(finish_outcome(m).events =~= o3.events);
        }
    }
}

} // verus!
