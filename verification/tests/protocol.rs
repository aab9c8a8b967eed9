use fish_session::protocol::{line_payload, message_line, LineReader, LineStep, Response};

#[test]
fn responses_say_how_it_went() {
    let ok = Response::ok();
    assert!(ok.ok && ok.error.is_none() && ok.sessions.is_none());
    let list = Response::with_sessions(Vec::new());
    assert!(list.ok && list.error.is_none() && list.sessions.unwrap().is_empty());
    let err = Response::err("no such thing".to_string());
    assert!(!err.ok && err.sessions.is_none());
    assert_eq!(err.error.as_deref(), Some("no such thing"));
}

#[test]
fn a_message_is_read_back() {
    let payload = "{\"name\":\"größe\"}";
    let line = message_line(payload);
    assert_eq!(line.last(), Some(&b'\n'));
    let mut reader = LineReader::new();
    for (i, byte) in line.iter().enumerate() {
        let expected = if i + 1 == line.len() { LineStep::Complete } else { LineStep::More };
        assert_eq!(reader.take(Some(*byte)), expected);
    }
    let read = reader.into_line().unwrap();
    assert_eq!(line_payload(&read), payload);
}

#[test]
fn the_end_of_the_stream_ends_a_line() {
    let mut reader = LineReader::new();
    assert_eq!(reader.take(None), LineStep::Closed);
    assert_eq!(reader.take(Some(b'x')), LineStep::More);
    assert_eq!(reader.take(None), LineStep::Complete);
    assert_eq!(reader.into_line().as_deref(), Some("x"));
}

#[test]
fn a_line_must_be_text() {
    let mut reader = LineReader::new();
    reader.take(Some(0xff));
    assert_eq!(reader.into_line(), None);
}
