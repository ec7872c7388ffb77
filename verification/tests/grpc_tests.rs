use rucimp::grpc::{match_grpc_request_header, HttpMatchError};
use rucimp::grpc::{build_grpc_request_from, CommonConfig, H2Reader, RequestTarget};
use bytes::BytesMut;
use rucimp::grpc::{encode, get_real_len, read_uvarint, GrpcReadState, GrpcReadStep, SingleClient, UVariantErr};

#[test]
fn real_len_counts_head_tag_varint_and_payload() {
    assert_eq!(get_real_len(0), 7);
    assert_eq!(get_real_len(5), 12);
    assert_eq!(get_real_len(127), 6 + 1 + 127);
    assert_eq!(get_real_len(128), 6 + 2 + 128);
    assert_eq!(get_real_len(300), 6 + 2 + 300);
    assert_eq!(get_real_len(16384), 6 + 3 + 16384);
}

#[test]
fn encode_frames_payload() {
    let b = encode(b"abc", false);
    assert_eq!(&b[..], &[0, 0, 0, 0, 5, 0x0a, 3, b'a', b'b', b'c']);
    let h = encode(b"abc", true);
    assert_eq!(&h[..], &[0, 0, 0, 0, 5, 0x0a, 3]);
}

#[test]
fn encode_large_payload_has_two_byte_varint() {
    let payload = vec![7u8; 300];
    let b = encode(&payload, false);
    assert_eq!(&b[..8], &[0, 0, 0, 1, 0x2f, 0x0a, 0xac, 0x02]);
    assert_eq!(b.len(), get_real_len(300));
}

#[test]
fn read_uvarint_reads_and_consumes() {
    let mut b = BytesMut::from(&[0xac, 0x02, 9][..]);
    let (v, e) = read_uvarint(&mut b);
    assert_eq!(v, 300);
    assert!(e.is_none());
    assert_eq!(&b[..], &[9]);
}

#[test]
fn read_uvarint_without_final_byte_fails() {
    let mut b = BytesMut::from(&[0x80, 0x80][..]);
    let (_, e) = read_uvarint(&mut b);
    assert!(matches!(e, Some(UVariantErr::NoFB)));
}

#[test]
fn read_uvarint_overflow_fails() {
    let mut b = BytesMut::from(&[0xff; 11][..]);
    let (_, e) = read_uvarint(&mut b);
    assert!(matches!(e, Some(UVariantErr::OverFlow)));
}

#[test]
fn read_state_gives_back_framed_payload() {
    let mut st = GrpcReadState::new();
    let framed = encode(b"hello", false);
    st.receive(&framed);
    match st.poll_step(100) {
        GrpcReadStep::Data(d) => assert_eq!(&d[..], b"hello"),
        _ => panic!("expected data"),
    }
}

#[test]
fn read_state_splits_to_reader_room() {
    let mut st = GrpcReadState::new();
    st.receive(&encode(b"hello", false));
    match st.poll_step(2) {
        GrpcReadStep::Data(d) => assert_eq!(&d[..], b"he"),
        _ => panic!("expected data"),
    }
    match st.poll_step(10) {
        GrpcReadStep::Data(d) => assert_eq!(&d[..], b"llo"),
        _ => panic!("expected data"),
    }
}

#[test]
fn single_client_name() {
    assert_eq!(SingleClient {}.name(), "h2_single_client");
}

#[test]
fn plan_write_whole_or_cut() {
    let (b, n) = rucimp::grpc::plan_write(b"abcdef", 100);
    assert_eq!(n, 6);
    assert_eq!(&b[..], &encode(b"abcdef", false)[..]);
    // a grant two bytes short of the 13-byte frame cuts two data bytes
    let (b, n) = rucimp::grpc::plan_write(b"abcdef", 11);
    assert_eq!(n, 4);
    assert_eq!(&b[..], &encode(b"abcd", false)[..]);
}

#[test]
fn grpc_content_type_check() {
    assert!(match_grpc_request_header(Some("application/grpc")).is_ok());
    assert_eq!(
        match_grpc_request_header(Some("text/plain")),
        Err(HttpMatchError::InvalidContentType {
            expected: "application/grpc".to_string(),
            found: "text/plain".to_string()
        })
    );
    assert_eq!(
        match_grpc_request_header(None),
        Err(HttpMatchError::InvalidContentType {
            expected: "application/grpc".to_string(),
            found: String::new()
        })
    );
}

#[test]
fn grpc_request_plan() {
    let c = CommonConfig {
        method: None,
        scheme: None,
        authority: "example.com".to_string(),
        path: "/svc".to_string(),
        host: "example.com".to_string(),
        use_early_data: None,
        headers: Some(vec![
            ("Host".to_string(), "h".to_string()),
            ("x-a".to_string(), "1".to_string()),
        ]),
    };
    let p = build_grpc_request_from(&c);
    assert_eq!(p.method, "POST");
    match p.target {
        RequestTarget::Parts(s, a, path) => {
            assert_eq!(s, "https");
            assert_eq!(a, "example.com");
            assert_eq!(path, "/svc");
        }
        _ => panic!("expected parts"),
    }
    assert_eq!(
        p.headers,
        vec![
            ("content-type".to_string(), "application/grpc".to_string()),
            ("user-agent".to_string(), "rucimp".to_string()),
            ("x-a".to_string(), "1".to_string()),
        ]
    );
    let bare = CommonConfig {
        method: Some("PUT".to_string()),
        scheme: None,
        authority: String::new(),
        path: "/p".to_string(),
        host: String::new(),
        use_early_data: None,
        headers: None,
    };
    let p = build_grpc_request_from(&bare);
    assert_eq!(p.method, "PUT");
    assert!(matches!(p.target, RequestTarget::Path(ref x) if x == "/p"));
    assert_eq!(p.headers.len(), 2);
}

#[test]
fn h2_reader_keeps_what_does_not_fit() {
    let mut r = H2Reader::new();
    assert!(r.take_buffered(4).is_none());
    let out = r.on_data(b"abcdefg", 3);
    assert_eq!(out, b"abc".to_vec());
    assert_eq!(&r.take_buffered(2).unwrap()[..], b"de");
    assert_eq!(&r.take_buffered(10).unwrap()[..], b"fg");
    assert!(r.take_buffered(10).is_none());
    assert_eq!(r.on_data(b"xy", 5), b"xy".to_vec());
    assert!(r.take_buffered(5).is_none());
}

#[test]
fn encode_head_reserves_room() {
    let h = rucimp::grpc::encode_head(2, false);
    assert_eq!(&h[..], &[0x00, 0x00, 0x00, 0x00, 0x04, 0x0A, 0x02]);
    assert!(h.capacity() >= 9);
    let h = rucimp::grpc::encode_head(300, true);
    assert_eq!(&h[..], &[0x00, 0x00, 0x00, 0x01, 0x2F, 0x0A, 0xAC, 0x02]);
    assert!(h.capacity() >= 8);
}
