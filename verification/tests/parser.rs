use compact_str::CompactString;
use sse_parser::{Event, Parser};

#[test]
fn parses_basic_events() {
    let mut parser = Parser::new();
    let events = parser.feed(b"event: ping\ndata: hello\n\n").unwrap();

    assert_eq!(
        events,
        vec![Event {
            event: CompactString::from("ping"),
            data: String::from("hello"),
            id: None,
        }]
    );
}

#[test]
fn supports_split_chunks_and_utf8() {
    let mut parser = Parser::new();

    assert!(parser.feed("data: こ".as_bytes()).unwrap().is_empty());

    let events = parser.feed("んにちは\n\n".as_bytes()).unwrap();
    assert_eq!(events[0].data, "こんにちは");
}

#[test]
fn handles_crlf_and_finish() {
    let mut parser = Parser::new();

    assert!(parser.feed(b"data: hello\r\n").unwrap().is_empty());

    let events = parser.finish().unwrap();
    assert_eq!(events[0].data, "hello");
    assert_eq!(events[0].event, "message");
}

#[test]
fn persists_last_event_id_and_retry() {
    let mut parser = Parser::new();

    assert!(parser.feed(b"id: 42\nretry: 1500\n\n").unwrap().is_empty());
    assert_eq!(parser.last_event_id(), Some("42"));
    assert_eq!(parser.retry(), Some(1500));

    let events = parser.feed(b"data: ok\n\n").unwrap();
    assert_eq!(events[0].id.as_deref(), Some("42"));
}

#[test]
fn strips_utf8_bom() {
    let mut parser = Parser::new();
    let input = [
        0xEF, 0xBB, 0xBF, b'd', b'a', b't', b'a', b':', b' ', b'x', b'\n', b'\n',
    ];
    let events = parser.feed(&input).unwrap();

    assert_eq!(events[0].data, "x");
}

#[test]
fn handles_crlf_split_across_chunks() {
    let mut parser = Parser::new();

    assert!(parser.feed(b"data: hello\r").unwrap().is_empty());

    let events = parser.feed(b"\n\r\n").unwrap();
    assert_eq!(events[0].data, "hello");
}

#[test]
fn handles_line_split_across_chunks() {
    let mut parser = Parser::new();

    assert!(parser.feed(b"data: hello").unwrap().is_empty());

    let events = parser.feed(b"\ndata: world\n\n").unwrap();
    assert_eq!(events[0].data, "hello\nworld");
}

#[test]
fn snapshot_complex_frame() {
    let mut parser = Parser::new();
    let events = parser
        .feed(b": heartbeat\nevent: status\nid: 7\ndata: hello\ndata: world\nretry: 1500\n\n")
        .unwrap();

    assert_eq!(
        (events, parser.last_event_id(), parser.retry()),
        (
            vec![Event {
                event: CompactString::from("status"),
                data: String::from("hello\nworld"),
                id: Some(CompactString::from("7")),
            }],
            Some("7"),
            Some(1500),
        )
    );
}
