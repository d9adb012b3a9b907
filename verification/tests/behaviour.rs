use compact_str::CompactString;
use sse_parser::{decode_utf8, parse_retry, Event, ParseError, Parser};

fn data_of(events: &[Event]) -> Vec<String> {
    events.iter().map(|e| e.data.clone()).collect()
}

#[test]
fn retry_values() {
    assert_eq!(parse_retry(b"1500"), Some(1500));
    assert_eq!(parse_retry(b"0"), Some(0));
    assert_eq!(parse_retry(b"007"), Some(7));
    assert_eq!(parse_retry(b"18446744073709551615"), Some(u64::MAX));
    assert_eq!(parse_retry(b"18446744073709551616"), None);
    assert_eq!(parse_retry(b"99999999999999999999"), None);
    assert_eq!(parse_retry(b""), None);
    assert_eq!(parse_retry(b"12a"), None);
    assert_eq!(parse_retry(b" 12"), None);
    assert_eq!(parse_retry(b"-1"), None);
}

#[test]
fn decode_utf8_reports_field() {
    assert_eq!(decode_utf8("héllo".as_bytes(), "data").unwrap(), "héllo");
    let err = decode_utf8(&[0x66, 0xFF], "event").unwrap_err();
    assert_eq!(err, ParseError::invalid_utf8("event"));
    assert_eq!(err.field(), "event");
    assert!(decode_utf8(&[0xC0, 0x80], "data").is_err());
    assert!(decode_utf8(&[0xED, 0xA0, 0x80], "data").is_err());
}

#[test]
fn invalid_utf8_data_fails_at_dispatch() {
    let mut parser = Parser::new();
    let err = parser.feed(b"data: \xFF\n\n").unwrap_err();
    assert_eq!(err.field(), "data");
}

#[test]
fn invalid_utf8_event_and_id() {
    let mut parser = Parser::new();
    assert_eq!(parser.feed(b"event: \xFE\n").unwrap_err().field(), "event");
    let mut parser = Parser::new();
    assert_eq!(parser.feed(b"id: \xFE\n").unwrap_err().field(), "id");
    assert_eq!(parser.last_event_id(), None);
}

#[test]
fn id_with_nul_is_ignored() {
    let mut parser = Parser::new();
    parser.feed(b"id: 1\n").unwrap();
    parser.feed(b"id: a\0b\n").unwrap();
    assert_eq!(parser.last_event_id(), Some("1"));
    let events = parser.feed(b"id\ndata: x\n\n").unwrap();
    assert_eq!(parser.last_event_id(), Some(""));
    assert_eq!(events[0].id.as_deref(), Some(""));
}

#[test]
fn event_type_resets_after_dispatch() {
    let mut parser = Parser::new();
    let events = parser.feed(b"event: a\ndata: x\n\ndata: y\n\n").unwrap();
    assert_eq!(events.len(), 2);
    assert_eq!(events[0].event, "a");
    assert_eq!(events[1].event, "message");
}

#[test]
fn blank_line_without_data_emits_nothing() {
    let mut parser = Parser::new();
    let events = parser.feed(b"event: a\n\ndata: y\n\n").unwrap();
    assert_eq!(events.len(), 1);
    assert_eq!(events[0].event, "message");
    assert!(parser.feed(b"\n\n\n").unwrap().is_empty());
}

#[test]
fn field_and_value_splitting() {
    let mut parser = Parser::new();
    let events = parser
        .feed(b"data\n\ndata:x\n\ndata:  y\n\ndata: a:b\n\n")
        .unwrap();
    assert_eq!(data_of(&events), vec!["", "x", " y", "a:b"]);
}

#[test]
fn unknown_fields_and_comments_are_ignored() {
    let mut parser = Parser::new();
    let events = parser
        .feed(b": comment\nfoo: bar\nDATA: no\ndata: yes\n:\n\n")
        .unwrap();
    assert_eq!(
        events,
        vec![Event {
            event: CompactString::from("message"),
            data: String::from("yes"),
            id: None,
        }]
    );
}

#[test]
fn invalid_retry_keeps_previous_value() {
    let mut parser = Parser::new();
    parser.feed(b"retry: 10\nretry: x\nretry:\nretry: 99999999999999999999\n").unwrap();
    assert_eq!(parser.retry(), Some(10));
    parser.feed(b"retry:20\n").unwrap();
    assert_eq!(parser.retry(), Some(20));
}

#[test]
fn chunk_boundaries_do_not_matter() {
    let input: &[u8] =
        b"\xEF\xBB\xBFid: 1\r\nevent: e\rdata: a\r\ndata: b\n\n: c\r\rdata: z\r\n\r\nretry: 5\n";
    let mut whole = Parser::new();
    let expected = whole.feed(input).unwrap();
    assert_eq!(data_of(&expected), vec!["a\nb", "z"]);
    for size in 1..input.len() {
        let mut parser = Parser::new();
        let mut events = Vec::new();
        for chunk in input.chunks(size) {
            parser.feed_into(chunk, &mut events).unwrap();
        }
        assert_eq!(events, expected, "chunk size {}", size);
        assert_eq!(parser.retry(), Some(5));
        assert_eq!(parser.last_event_id(), Some("1"));
    }
}

#[test]
fn line_endings_are_equivalent() {
    let mut lf = Parser::new();
    let mut crlf = Parser::new();
    let mut cr = Parser::new();
    let a = lf.feed(b"data: a\ndata: b\n\n").unwrap();
    let b = crlf.feed(b"data: a\r\ndata: b\r\n\r\n").unwrap();
    let c = cr.feed(b"data: a\rdata: b\r\r").unwrap();
    assert_eq!(a, b);
    assert_eq!(a, c);
    assert_eq!(a[0].data, "a\nb");
}

#[test]
fn bom_split_across_chunks() {
    let mut parser = Parser::new();
    assert!(parser.feed(&[0xEF]).unwrap().is_empty());
    assert!(parser.feed(&[0xBB]).unwrap().is_empty());
    let events = parser.feed(b"\xBFdata: x\n\n").unwrap();
    assert_eq!(data_of(&events), vec!["x"]);
}

#[test]
fn broken_bom_bytes_belong_to_the_stream() {
    let mut parser = Parser::new();
    let events = parser.feed(b"\xEF\xBBdata: x\n\n").unwrap();
    assert!(events.is_empty());
    let mut parser = Parser::new();
    let events = parser.feed(b"\xEFdata: \xEF\xBB\xBF\n\n").unwrap();
    assert!(events.is_empty());
}

#[test]
fn only_the_first_bom_is_skipped() {
    let mut parser = Parser::new();
    let events = parser.feed(b"\xEF\xBB\xBF\xEF\xBB\xBFdata: x\n\n").unwrap();
    assert!(events.is_empty());
}

#[test]
fn bom_only_input_then_finish() {
    let mut parser = Parser::new();
    assert!(parser.feed(&[0xEF, 0xBB]).unwrap().is_empty());
    assert!(parser.finish().unwrap().is_empty());
}

#[test]
fn finish_processes_unterminated_line() {
    let mut parser = Parser::new();
    assert!(parser.feed(b"event: last\ndata: tail").unwrap().is_empty());
    let events = parser.finish().unwrap();
    assert_eq!(
        events,
        vec![Event {
            event: CompactString::from("last"),
            data: String::from("tail"),
            id: None,
        }]
    );
    assert!(parser.finish().unwrap().is_empty());
}

#[test]
fn finish_clears_pending_cr() {
    let mut parser = Parser::new();
    assert!(parser.feed(b"data: a\r").unwrap().is_empty());
    let events = parser.finish().unwrap();
    assert_eq!(data_of(&events), vec!["a"]);
    let events = parser.feed(b"\ndata: b\n\n").unwrap();
    assert_eq!(data_of(&events), vec!["b"]);
}

#[test]
fn reset_forgets_everything() {
    let mut parser = Parser::new();
    parser.feed(b"id: 3\nretry: 7\nevent: e\ndata: partial\ndata: more").unwrap();
    parser.reset();
    assert_eq!(parser.last_event_id(), None);
    assert_eq!(parser.retry(), None);
    assert!(parser.finish().unwrap().is_empty());
    parser.reset();
    let events = parser.feed(b"\xEF\xBB\xBFdata: fresh\n\n").unwrap();
    assert_eq!(
        events,
        vec![Event {
            event: CompactString::from("message"),
            data: String::from("fresh"),
            id: None,
        }]
    );
}

#[test]
fn feed_into_appends() {
    let mut parser = Parser::default();
    let mut out = vec![Event {
        event: CompactString::from("old"),
        data: String::from("kept"),
        id: None,
    }];
    parser.feed_into(b"data: new\n\n", &mut out).unwrap();
    parser.finish_into(&mut out).unwrap();
    assert_eq!(data_of(&out), vec!["kept", "new"]);
}

#[test]
fn long_lines_and_many_events() {
    let mut input = Vec::new();
    let long = "x".repeat(1000);
    for i in 0..50 {
        input.extend_from_slice(format!("id: {}\ndata: {}\n\n", i, long).as_bytes());
    }
    let mut parser = Parser::new();
    let mut events = Vec::new();
    for chunk in input.chunks(37) {
        parser.feed_into(chunk, &mut events).unwrap();
    }
    assert_eq!(events.len(), 50);
    assert_eq!(events[49].id.as_deref(), Some("49"));
    assert!(events.iter().all(|e| e.data == long));
}

#[test]
fn room_for_more_bytes() {
    let mut parser = Parser::new();
    assert!(parser.has_room_for(1000));
    assert!(parser.has_room_for(0));
    assert!(!parser.has_room_for(usize::MAX));
    parser.feed(b"data: abc").unwrap();
    assert!(parser.has_room_for(1000));
    assert!(!parser.has_room_for(usize::MAX / 4));
    assert!(parser.has_room_for(usize::MAX / 4 - 9));
    assert!(!parser.has_room_for(usize::MAX / 4 - 8));
}

fn normalize(s: &[u8]) -> Vec<u8> {
    let mut out = Vec::new();
    let mut i = 0;
    while i < s.len() {
        if s[i] == b'\r' {
            out.push(b'\n');
            if i + 1 < s.len() && s[i + 1] == b'\n' {
                i += 1;
            }
        } else {
            out.push(s[i]);
        }
        i += 1;
    }
    out
}

#[test]
fn whole_stream_line_endings_are_equivalent() {
    let inputs: [&[u8]; 4] = [
        b"\xEF\xBB\xBFid: 9\r\r\nevent: e\rdata: a\r\n\rdata: b\r\r\n\r",
        b"data: x\r\n\r\ndata: y\r\rdata: z\n\r\n",
        b"\r\n\r\ndata: q\r",
        b"\xEF\rdata: w\r\n\r\n",
    ];
    for input in inputs.iter() {
        let mut a = Parser::new();
        let mut b = Parser::new();
        let ea = a.feed(input).unwrap();
        let eb = b.feed(&normalize(input)).unwrap();
        assert_eq!(ea, eb);
        assert_eq!(a.last_event_id(), b.last_event_id());
        assert_eq!(a.finish().unwrap(), b.finish().unwrap());
    }
}

#[test]
fn finish_emits_at_most_one_event() {
    for input in [
        &b"data: a\n\ndata: b"[..],
        &b"\xEF\xBB"[..],
        &b"data: x\r"[..],
        &b"event: e\ndata: y\ndata"[..],
        &b""[..],
    ] {
        let mut parser = Parser::new();
        parser.feed(input).unwrap();
        assert!(parser.finish().unwrap().len() <= 1);
        assert!(parser.finish().unwrap().is_empty());
    }
}

#[test]
fn emitted_events_hold_no_line_terminators() {
    let input: &[u8] =
        b"event: a\rid: 1\r\ndata: x\rdata: y\r\n\rid: 2\0\nevent:\ndata: z\n\ndata\r\r";
    let mut parser = Parser::new();
    let mut events = parser.feed(input).unwrap();
    events.extend(parser.finish().unwrap());
    assert_eq!(events.len(), 3);
    for e in &events {
        assert!(!e.event.is_empty());
        assert!(!e.event.contains('\r') && !e.event.contains('\n'));
        assert!(!e.data.contains('\r'));
        if let Some(id) = &e.id {
            assert!(!id.contains('\0') && !id.contains('\r') && !id.contains('\n'));
        }
    }
    assert_eq!(events[0].data, "x\ny");
    assert_eq!(events[0].event, "a");
    assert_eq!(events[1].event, "message");
    assert_eq!(parser.last_event_id(), Some("1"));
}
