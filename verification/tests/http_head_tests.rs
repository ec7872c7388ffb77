use rucimp::http_head::{parse_head, BodyReader, HeadResult, ReadAction, ReadState};
use rucimp::spe1::ConnState;

#[test]
fn head_gives_length_and_start() {
    let m = b"POST /ask HTTP/1.1\r\nHost: x\r\nContent-Length: 5\r\n\r\nhello";
    assert_eq!(parse_head(m), HeadResult::Ready(5, m.len() - 5));
}

#[test]
fn head_problems() {
    assert_eq!(parse_head(b"GET / HTTP/1.1\r\nHost: x\r\n"), HeadResult::Partial);
    assert_eq!(parse_head(b"GET / HTTP/1.1\r\nHost: x\r\n\r\n"), HeadResult::NoContentLength);
    assert_eq!(
        parse_head(b"GET / HTTP/1.1\r\nContent-Length: lots\r\n\r\n"),
        HeadResult::BadContentLength
    );
    // the start line is not a header
    assert_eq!(parse_head(b"Content-Length: 3\r\n\r\nabc"), HeadResult::NoContentLength);
}

#[test]
fn reader_gathers_whole_body() {
    let m = b"http/1.1 200 OK\r\nContent-Length: 6\r\n\r\nabcdef";
    let mut r = BodyReader::new();
    // the first read holds the head and two body bytes
    let first = &m[..m.len() - 4];
    assert_eq!(r.on_read(first), ReadAction::ReadMore);
    let start = m.len() - 6;
    assert_eq!(r.state, ReadState::Previous(6, start, first.len()));
    assert_eq!(r.on_read(m), ReadAction::Body(start, start + 6));
    assert_eq!(r.state, ReadState::ReadyForNew);
}

#[test]
fn reader_closes_on_empty_read() {
    let mut r = BodyReader::new();
    assert_eq!(r.on_read(b""), ReadAction::Closed);
    assert_eq!(r.on_read(b"x"), ReadAction::Closed);
}

#[test]
fn reader_fails_on_bad_head() {
    let mut r = BodyReader::new();
    assert_eq!(r.on_read(b"junk"), ReadAction::Fail(HeadResult::Partial));
    assert_eq!(r.state, ReadState::ReadyForNew);
    r.state = ReadState::Previous(3, 0, 1);
    r.on_read_error(true);
    assert_eq!(r.state, ReadState::Previous(3, 0, 1));
    r.on_read_error(false);
    assert_eq!(r.state, ReadState::ReadyForNew);
}

#[test]
fn written_request_is_read_back() {
    let qa = rucimp::spe1::QaData::new_simple();
    let mut cache = bytes::BytesMut::new();
    let n = qa.write_client_data(b"xy", &mut cache);
    match parse_head(&cache) {
        HeadResult::Ready(len, start) => {
            assert_eq!(len, n);
            assert_eq!(start + len, cache.len());
        }
        other => panic!("unexpected head {other:?}"),
    }
}

#[test]
fn written_response_is_read_back() {
    let qa = rucimp::spe1::QaData::new_simple();
    let mut cache = bytes::BytesMut::new();
    let n = qa.write_server_data(b"q", &mut cache, &[(true, 3), (false, 0)]);
    match parse_head(&cache) {
        HeadResult::Ready(len, start) => {
            assert_eq!(len, n);
            assert_eq!(start + len, cache.len());
        }
        other => panic!("unexpected head {other:?}"),
    }
}

#[test]
fn wire_round_trip_both_ways() {
    let qa = rucimp::spe1::QaData::new_simple();

    // the client writes, the server frames and decodes
    let mut client = ConnState::new(false);
    client.start_write(&qa, b"hi!");
    let wire = client.write_cache.to_vec();
    let mut reader = BodyReader::new();
    let (s, e) = match reader.on_read(&wire) {
        ReadAction::Body(s, e) => (s, e),
        other => panic!("unexpected {other:?}"),
    };
    assert_eq!(e, wire.len());
    let mut server = ConnState::new(true);
    let got = server.real_read(&qa, &wire[s..e]).ok().unwrap();
    assert_eq!(&got[..], b"hi!");
    assert_eq!(server.server_cached_answers.len(), 24);

    // the server answers, the client frames and decodes
    server.start_write(&qa, b"ok");
    let wire = server.write_cache.to_vec();
    let mut reader = BodyReader::new();
    let (s, e) = match reader.on_read(&wire) {
        ReadAction::Body(s, e) => (s, e),
        other => panic!("unexpected {other:?}"),
    };
    assert_eq!(e, wire.len());
    let got = client.real_read(&qa, &wire[s..e]).ok().unwrap();
    assert_eq!(&got[..], b"ok");
}
