use rucimp::ai::{decrypt_prompts, sequence_prompts, AIProtocolConfig};
use rucimp::ai::{read_sequence_reply, AIResult};
use rucimp::ai::{
    lines_of, parse_ai_response_to_read_sequence, parse_ai_response_to_write_sequence,
    parse_decimal, parse_decrypted_data, parse_server_response, parse_u16, parse_usize,
    split_once_at, trim_str, AIConn, AISequence, AiConnState, DecryptError, SequenceError,
};

#[test]
fn trim_removes_unicode_white_space() {
    assert_eq!(trim_str("  a b \t\n"), "a b");
    assert_eq!(trim_str("\u{3000}x\u{a0}"), "x");
    assert_eq!(trim_str("   "), "");
}

#[test]
fn lines_match_str_lines() {
    for s in ["", "a", "a\n", "a\r\nb", "a\n\nb\r", "\n", "x\r\n"] {
        let want: Vec<&str> = s.lines().collect();
        assert_eq!(lines_of(s), want, "lines of {s:?}");
    }
}

#[test]
fn split_once_at_first() {
    assert_eq!(split_once_at("a:b:c", ':'), Some(("a".to_string(), "b:c".to_string())));
    assert_eq!(split_once_at("abc", ':'), None);
}

#[test]
fn decimal_parsing_matches_str_parse() {
    for s in ["0", "42", "+7", "", "+", "-1", "12a", "65535", "65536", " 1"] {
        assert_eq!(parse_u16(s), s.parse::<u16>().ok(), "u16 of {s:?}");
        assert_eq!(parse_usize(s), s.parse::<usize>().ok(), "usize of {s:?}");
    }
    assert_eq!(parse_decimal("18446744073709551615", u64::MAX), Some(u64::MAX));
    assert_eq!(parse_decimal("18446744073709551616", u64::MAX), None);
}

#[test]
fn write_sequence_from_reply() {
    let content = "Some text\nWRITE_PACKETS: aGVsbG8=, d29ybGQ=\nREAD_LENGTHS: 5, 0 ,7\nOTHER: x";
    let w = parse_ai_response_to_write_sequence(content).ok().unwrap();
    assert_eq!(w.write_packets, vec![b"hello".to_vec(), b"world".to_vec()]);
    assert_eq!(w.read_lengths, vec![5, 0, 7]);
    assert!(w.current_step.is_write);
    assert_eq!(w.current_step.index, 0);
}

#[test]
fn bad_packet_or_length_fails() {
    assert!(matches!(
        parse_ai_response_to_write_sequence("WRITE_PACKETS: !!!"),
        Err(SequenceError::BadPacket)
    ));
    assert!(matches!(
        parse_ai_response_to_write_sequence("READ_LENGTHS: 3, x"),
        Err(SequenceError::BadLength)
    ));
}

#[test]
fn read_sequence_with_target() {
    let content = "WRITE_PACKETS: YQ==\nTARGET_ADDR_NETWORK: tcp\nTARGET_ADDR_HOST: example.com\nTARGET_ADDR_PORT: 443";
    let (s, t) = parse_ai_response_to_read_sequence(content).ok().unwrap();
    assert_eq!(s.write_packets, vec![b"a".to_vec()]);
    assert!(s.read_packets.is_empty());
    let t = t.unwrap();
    assert_eq!(t.network, "tcp");
    assert_eq!(t.host, Some("example.com".to_string()));
    assert_eq!(t.ip, None);
    assert_eq!(t.port, 443);
    let (_, none) = parse_ai_response_to_read_sequence("TARGET_ADDR_PORT: 1").ok().unwrap();
    assert!(none.is_none());
    assert!(matches!(
        parse_ai_response_to_read_sequence("TARGET_ADDR_PORT: 70000"),
        Err(SequenceError::BadPort)
    ));
}

#[test]
fn target_ip_must_be_address_text() {
    assert!(matches!(
        parse_ai_response_to_read_sequence("TARGET_ADDR_IP: 1.2.3.256\nTARGET_ADDR_PORT: 1"),
        Err(SequenceError::BadIp)
    ));
    assert!(matches!(
        parse_server_response("TARGET_ADDR_NETWORK: tcp\nTARGET_ADDR_IP: localhost\nTARGET_ADDR_PORT: 80"),
        Err(SequenceError::BadIp)
    ));
    let (_, t) = parse_ai_response_to_read_sequence("TARGET_ADDR_NETWORK: tcp\nTARGET_ADDR_IP: ::1\nTARGET_ADDR_PORT: 80")
        .ok()
        .unwrap();
    assert_eq!(t.unwrap().ip, Some("::1".to_string()));
}

#[test]
fn server_response_sequence() {
    let s = parse_server_response("READ_LENGTHS: 1\nTARGET_ADDR_NETWORK: udp\nTARGET_ADDR_IP: 1.2.3.4\nTARGET_ADDR_PORT: 53")
        .ok()
        .unwrap();
    assert_eq!(s.read_lengths, vec![1]);
    let t = s.target_addr.unwrap();
    assert_eq!(t.ip, Some("1.2.3.4".to_string()));
}

#[test]
fn decrypted_data_first_line_decides() {
    assert_eq!(parse_decrypted_data("x\n DECRYPTED_DATA : aGk=\nDECRYPTED_DATA: eA==").ok(), Some(b"hi".to_vec()));
    assert!(matches!(parse_decrypted_data("nothing"), Err(DecryptError::NotFound)));
    assert!(matches!(parse_decrypted_data("DECRYPTED_DATA: ???"), Err(DecryptError::BadBase64)));
}

#[test]
fn decrypted_data_needs_padded_canonical_base64() {
    assert!(matches!(parse_decrypted_data("DECRYPTED_DATA: aGk"), Err(DecryptError::BadBase64)));
    assert!(matches!(parse_decrypted_data("DECRYPTED_DATA: aGl="), Err(DecryptError::BadBase64)));
    assert_eq!(parse_decrypted_data("DECRYPTED_DATA: +/8=").ok(), Some(vec![0xfb, 0xff]));
}

fn seq(packets: Vec<Vec<u8>>, lengths: Vec<usize>) -> AISequence {
    AISequence { write_packets: packets, read_lengths: lengths, target_addr: None }
}

#[test]
fn conn_read_sequence_delivers_and_owes() {
    let mut c = AIConn::new(seq(vec![b"first".to_vec()], vec![]));
    assert_eq!(c.take_first_packet(), Some(b"first".to_vec()));
    c.start_processing();
    c.create_read_sequence(seq(vec![b"abc".to_vec(), b"de".to_vec()], vec![]));
    assert_eq!(c.deliver(2), Some(b"ab".to_vec()));
    // an answer as long as the first packet is owed
    let owed = c.take_pending_write().unwrap();
    assert_eq!(owed, vec![0, 0, 0]);
    c.pending_write_done();
    assert_eq!(c.deliver(10), Some(b"de".to_vec()));
    assert_eq!(c.take_pending_write(), Some(vec![0, 0]));
    c.pending_write_done();
    assert_eq!(c.deliver(10), None);
    assert!(matches!(c.state, AiConnState::Ready));
}

#[test]
fn conn_write_sequence_awaits_reads() {
    let mut c = AIConn::new(seq(vec![], vec![]));
    assert_eq!(c.take_first_packet(), Some(vec![]));
    c.create_write_sequence(seq(vec![b"w1".to_vec(), b"w2".to_vec()], vec![4, 0]));
    assert_eq!(c.next_packet(), Some(&b"w1".to_vec()));
    c.packet_written();
    assert_eq!(c.awaited_read(), Some(4));
    c.read_awaited_done();
    assert_eq!(c.awaited_read(), None);
    assert_eq!(c.next_packet(), Some(&b"w2".to_vec()));
    c.packet_written();
    assert!(matches!(c.state, AiConnState::Ready));
}

#[test]
fn api_url_and_bearer() {
    assert_eq!(rucimp::ai::api_url("https://x.ai//"), "https://x.ai/v1/chat/completions");
    assert_eq!(rucimp::ai::api_url("h"), "h/v1/chat/completions");
    assert_eq!(rucimp::ai::bearer("k"), "Bearer k");
}

#[test]
fn prompts_carry_base64_data() {
    let config = AIProtocolConfig {
        api_key: "k".to_string(),
        model: "m".to_string(),
        algorithm_description: "ALG".to_string(),
        is_server: false,
        api_base_url: "u".to_string(),
    };
    let (sys, user) = sequence_prompts(&config, b"hi", Some("tcp://a:1"), None, true, false);
    assert!(sys.starts_with("You are the client of a network protocol processor. You need to decode a write data sequence"));
    assert!(sys.contains("description:\nALG\n\nResponse Format:\n"));
    assert_eq!(
        user,
        "This is Client Handshake data. Please process the following information:\nTarget address: tcp://a:1\nMain data: aGk="
    );
    let (_, user) = sequence_prompts(&config, b"", None, None, false, true);
    assert_eq!(user, "This is Client Normal data. Please process the following data:\n");
    let (sys, user) = decrypt_prompts(&config, b"hi");
    assert!(sys.ends_with("DECRYPTED_DATA: [base64 encoded decrypted data]"));
    assert_eq!(user, "ENCRYPTED_DATA: aGk=");
}

#[test]
fn reply_content_reads_first_choice() {
    let body = r#"{"choices":[{"message":{"content":"WRITE_PACKETS: YQ==\nREAD_LENGTHS: 3"}}]}"#;
    let s = rucimp::ai::sequence_from_reply(body).ok().unwrap();
    assert_eq!(s.write_packets, vec![b"a".to_vec()]);
    assert_eq!(s.read_lengths, vec![3]);
    assert!(matches!(rucimp::ai::sequence_from_reply("{}"), Err(rucimp::ai::ReplyError::BadFormat)));
    assert!(matches!(rucimp::ai::sequence_from_reply("not json"), Err(rucimp::ai::ReplyError::BadFormat)));
    let bad = r#"{"choices":[{"message":{"content":"WRITE_PACKETS: !!"}}]}"#;
    assert!(matches!(rucimp::ai::sequence_from_reply(bad), Err(rucimp::ai::ReplyError::Sequence(_))));
}

#[test]
fn reply_bodies_for_decrypt_and_algorithm() {
    let body = r#"{"choices":[{"message":{"content":"x\nDECRYPTED_DATA: aGk="}}]}"#;
    assert_eq!(rucimp::ai::decrypted_from_reply(body), Ok(b"hi".to_vec()));
    let none = r#"{"choices":[{"message":{"content":"nothing"}}]}"#;
    assert!(matches!(rucimp::ai::decrypted_from_reply(none), Err(rucimp::ai::ReplyError::Decrypt(_))));
    let mut config = rucimp::ai::AIProtocolConfig {
        api_key: "k".to_string(),
        model: "m".to_string(),
        algorithm_description: String::new(),
        is_server: false,
        api_base_url: "http://x".to_string(),
    };
    let body = r#"{"choices":[{"message":{"content":"the algorithm"}}]}"#;
    assert!(rucimp::ai::set_algorithm_from_reply(&mut config, body).is_ok());
    assert_eq!(config.algorithm_description, "the algorithm");
    assert!(rucimp::ai::set_algorithm_from_reply(&mut config, "[]").is_err());
    assert_eq!(config.algorithm_description, "the algorithm");
    match rucimp::ai::sequence_reply_from_body(r#"{"choices":[{"message":{"content":"WRITE_PACKETS: YQ=="}}]}"#, false, false, false) {
        Ok(rucimp::ai::AIResult::Write(w)) => assert_eq!(w.write_packets, vec![b"a".to_vec()]),
        _ => panic!("expected a write sequence"),
    }
}

#[test]
fn sequence_reply_form_follows_request() {
    let content = "WRITE_PACKETS: YQ==\nTARGET_ADDR_NETWORK: tcp\nTARGET_ADDR_PORT: 80";
    match read_sequence_reply(content, true, true, true).ok().unwrap() {
        AIResult::Read(_, t) => assert!(t.is_some()),
        _ => panic!("expected a read sequence"),
    }
    match read_sequence_reply(content, false, false, true).ok().unwrap() {
        AIResult::Read(_, t) => assert!(t.is_none()),
        _ => panic!("expected a read sequence"),
    }
    assert!(matches!(read_sequence_reply(content, false, false, false).ok().unwrap(), AIResult::Write(_)));
}

#[test]
fn ai_mapper_choice() {
    assert_eq!(rucimp::ai::ai_map_choice(rucimp::recorder::ProxyBehavior::ENCODE, false), rucimp::ai::AiMapChoice::Wrap);
    assert_eq!(rucimp::ai::ai_map_choice(rucimp::recorder::ProxyBehavior::DECODE, true), rucimp::ai::AiMapChoice::Wrap);
    assert_eq!(rucimp::ai::ai_map_choice(rucimp::recorder::ProxyBehavior::DECODE, false), rucimp::ai::AiMapChoice::PassThrough);
    assert_eq!(rucimp::ai::ai_map_choice(rucimp::recorder::ProxyBehavior::UNSPECIFIED, true), rucimp::ai::AiMapChoice::Unsupported);
}
