use rucimp::grpc::CommonConfig;
use rucimp::ws::{
    check_upgrade_status, early_data_from_header, early_data_header, ws_err_to_io_err_kind,
    Client, DialPhase, EarlyWriter, FirstWrite, IoErrorKind, WsErrorKind, WsMessage, WsReadStep,
    WsReader, MAX_EARLY_DATA_LEN, MAX_EARLY_DATA_LEN_BASE64,
};

#[test]
fn early_data_travels_in_header() {
    let h = early_data_header(b"hello");
    assert_eq!(h, "aGVsbG8");
    assert_eq!(early_data_from_header(Some(h.as_bytes())), Some(b"hello".to_vec()));
    let big = vec![7u8; MAX_EARLY_DATA_LEN];
    let h = early_data_header(&big);
    assert!(h.len() <= MAX_EARLY_DATA_LEN_BASE64);
    assert_eq!(early_data_from_header(Some(h.as_bytes())), Some(big));
}

#[test]
fn early_data_header_refused() {
    assert_eq!(early_data_from_header(None), None);
    assert_eq!(early_data_from_header(Some(b"")), None);
    assert_eq!(early_data_from_header(Some(b"!!!")), None);
    let long = vec![b'A'; MAX_EARLY_DATA_LEN_BASE64 + 1];
    assert_eq!(early_data_from_header(Some(&long)), None);
}

#[test]
fn early_data_header_only_canonical_text() {
    assert_eq!(early_data_from_header(Some(b"aGk")), Some(b"hi".to_vec()));
    assert_eq!(early_data_from_header(Some(b"aGk=")), None);
    assert_eq!(early_data_from_header(Some(b"aGl")), None);
    assert_eq!(early_data_from_header(Some(b"a")), None);
    assert_eq!(early_data_from_header(Some(b"-_8")), Some(vec![0xfb, 0xff]));
}

#[test]
fn upgrade_status() {
    assert_eq!(check_upgrade_status(101), Ok(()));
    assert_eq!(check_upgrade_status(200), Err(200));
}

fn config() -> CommonConfig {
    CommonConfig {
        method: None,
        scheme: None,
        authority: String::new(),
        path: "/chat".to_string(),
        host: "example.com".to_string(),
        headers: Some(vec![
            ("Host".to_string(), "other".to_string()),
            ("X-A".to_string(), "1".to_string()),
        ]),
        use_early_data: Some(true),
    }
}

#[test]
fn upgrade_request_plan() {
    let c = Client::new_with_key(&config(), "k".to_string());
    assert_eq!(c.request.method, "GET");
    assert_eq!(c.request.uri, "ws://example.com/chat");
    let names: Vec<(&str, &str)> =
        c.request.headers.iter().map(|(a, b)| (a.as_str(), b.as_str())).collect();
    assert_eq!(
        names,
        vec![
            ("Host", "example.com"),
            ("Connection", "Upgrade"),
            ("Upgrade", "websocket"),
            ("Sec-WebSocket-Version", "13"),
            ("Sec-WebSocket-Key", "k"),
            ("X-A", "1"),
        ]
    );
    assert!(c.use_early_data);
    let fresh = Client::new(&config());
    assert_eq!(fresh.request.headers[4].1.len(), 24);
}

#[test]
fn early_writer_first_write_and_rest() {
    let mut w = EarlyWriter::new();
    let buf = vec![1u8; 3000];
    let early = w.begin(&buf);
    assert_eq!(early.len(), MAX_EARLY_DATA_LEN);
    assert_eq!(w.phase, DialPhase::Dialing);
    let rest = match w.dial_succeeded() {
        FirstWrite::Rest(r) => r,
        FirstWrite::Done(_) => panic!("rest expected"),
    };
    assert_eq!(rest.len(), 952);
    assert_eq!(w.first_rest_written(rest, 500), 2548);
    assert_eq!(w.left.as_ref().map(|l| l.len()), Some(452));
    assert!(w.stage(b"xy"));
    assert_eq!(w.left.as_ref().map(|l| l.len()), Some(454));
    assert_eq!(w.staged_written(454), 454);
    assert!(w.left.is_none());
    assert!(!w.stage(b"z"));
}

#[test]
fn early_writer_small_first_write() {
    let mut w = EarlyWriter::new();
    assert_eq!(w.begin(b"abc"), b"abc".to_vec());
    match w.dial_succeeded() {
        FirstWrite::Done(n) => assert_eq!(n, 3),
        FirstWrite::Rest(_) => panic!("nothing should be left"),
    }
    assert_eq!(w.phase, DialPhase::Established);
}

#[test]
fn reader_hands_out_messages_in_order() {
    let mut r = WsReader::new();
    let msg: Vec<u8> = (0u8..10).collect();
    assert!(matches!(r.on_message(WsMessage::Binary(msg.clone()), 4), WsReadStep::Kept));
    assert_eq!(r.take_kept(4), Some(msg[..4].to_vec()));
    assert_eq!(r.take_kept(10), Some(msg[4..].to_vec()));
    assert_eq!(r.take_kept(10), None);
    match r.on_message(WsMessage::Binary(vec![9, 9]), 4) {
        WsReadStep::Deliver(d) => assert_eq!(d, vec![9, 9]),
        _ => panic!("deliver expected"),
    }
    assert!(matches!(r.on_message(WsMessage::Close, 4), WsReadStep::Eof));
    assert!(matches!(r.on_message(WsMessage::Other, 4), WsReadStep::Fail));
}

#[test]
fn error_kinds() {
    assert_eq!(ws_err_to_io_err_kind(WsErrorKind::AlreadyClosed), IoErrorKind::ConnectionAborted);
    assert_eq!(ws_err_to_io_err_kind(WsErrorKind::Tls), IoErrorKind::BrokenPipe);
    assert_eq!(ws_err_to_io_err_kind(WsErrorKind::WriteBufferFull), IoErrorKind::OutOfMemory);
    assert_eq!(ws_err_to_io_err_kind(WsErrorKind::Url), IoErrorKind::InvalidData);
}
