use bytes::BytesMut;
use rucimp::bits::bools_to_bytes;
use rucimp::spe1::{
    server_response_to_2_parts, ConnState, QaData, QaError, WriteProgress, WriteState,
};

fn lines(s: &str) -> Vec<&str> {
    s.split('\n').collect()
}

#[test]
fn test_new_simple() {
    let qa = QaData::new_simple();
    assert_eq!(qa.qa_set.len(), 2);
    assert_eq!(qa.qa_set[0].len(), 128);
    assert_eq!(qa.qa_set[1].len(), 128);
}

#[test]
fn test_from_vec() {
    let qas = vec![
        ("q1".to_string(), "a1".to_string()),
        ("q2".to_string(), "a2".to_string()),
        ("q3".to_string(), "a3".to_string()),
        ("q4".to_string(), "a4".to_string()),
    ];
    let qa = QaData::from(qas.clone());

    assert_eq!(qa.qa_set[0].len(), 128);
    assert_eq!(qa.qa_set[1].len(), 128);

    let first_two = &qa.qa_set[0][0..2];
    assert_eq!(first_two[0], qas[0]);
    assert_eq!(first_two[1], qas[1]);
}

#[test]
fn test_oversized_input() {
    let mut qas = Vec::new();
    for i in 0..300 {
        qas.push((format!("question_{}", i), format!("answer_{}", i)));
    }

    let qa = QaData::from(qas);

    assert_eq!(qa.qa_set[0].len(), 128);
    assert_eq!(qa.qa_set[1].len(), 128);
}

#[test]
fn test_bytes_to_questions() {
    let qa = QaData::new_simple();

    assert_eq!(qa.bytes_to_questions_text(&[]), "");

    let result = qa.bytes_to_questions_text(&[0x55]);
    let questions: Vec<&str> = result.split('\n').collect();
    assert_eq!(questions.len(), 8);

    let result = qa.bytes_to_questions_text(&[0xFF, 0x00]);
    let questions: Vec<&str> = result.split('\n').collect();
    assert_eq!(questions.len(), 16);
}

#[test]
fn test_question_matching() {
    let qa = QaData::new_simple();

    let valid_q = &qa.qa_set[0][0].0;
    let result = qa.match_question(valid_q);
    assert!(result.is_ok());

    let result = qa.match_question("invalid_question");
    assert!(result.is_err());

    let q0 = &qa.qa_set[0][0].0;
    let q1 = &qa.qa_set[1][0].0;

    let (bit0, _) = qa.match_question(q0).ok().unwrap();
    let (bit1, _) = qa.match_question(q1).ok().unwrap();

    assert!(!bit0);
    assert!(bit1);
}

#[test]
fn test_bools_to_bytes() {
    let ev: Vec<bool> = vec![];
    let eb: Vec<u8> = vec![];
    assert_eq!(bools_to_bytes(ev), eb);

    assert_eq!(bools_to_bytes(vec![true]), vec![128]);
    assert_eq!(bools_to_bytes(vec![false]), vec![0]);

    assert_eq!(
        bools_to_bytes(vec![true, true, true, true, true, true, true, true]),
        vec![255]
    );

    assert_eq!(bools_to_bytes(vec![true, false, true, false]), vec![160]);

    assert_eq!(
        bools_to_bytes(vec![
            true, true, true, true, false, false, false, false, false, false, false, false, true,
            true, true, true
        ]),
        vec![0xF0, 0x0F]
    );
}

#[test]
fn mod_q2t() {
    let x = QaData::new_simple();
    println!("{}", x.bytes_to_questions_text(&[1, 4, 3, 2, 5, 7, 8, 33, 241]))
}

#[test]
fn mod_b2b() {
    println!("{:?}", bools_to_bytes(vec![]));
    println!("{:?}", bools_to_bytes(vec![false]));
    println!("{:?}", bools_to_bytes(vec![true]));
    println!("{:?}", bools_to_bytes(vec![true, false]));
    println!("{:?}", bools_to_bytes(vec![true, true]));
    println!("{:?}", bools_to_bytes(vec![true, false, true]));
    println!("{:?}", bools_to_bytes(vec![true, true, true]));
    println!("{:?}", bools_to_bytes(vec![true, true, true, true]));
    println!("{:?}", bools_to_bytes(vec![true, true, true, true, true]));
    println!("{:?}", bools_to_bytes(vec![true, true, true, true, true, true]));
    println!("{:?}", bools_to_bytes(vec![true, true, true, true, true, true, true]));
    println!("{:?}", bools_to_bytes(vec![true, true, true, true, true, true, true, true]));
    println!(
        "{:?}",
        bools_to_bytes(vec![
            true, false, true, true, false, false, true, false, false, true, true, false, false,
            true, false, true,
        ])
    );
}

#[test]
fn simple_tables_name_their_entries() {
    let qa = QaData::new_simple();
    assert_eq!(qa.qa_set[0][0].0, "question 0");
    assert_eq!(qa.qa_set[0][127].1, "answer 127");
    assert_eq!(qa.qa_set[1][0].0, "question 128");
    assert_eq!(qa.qa_set[1][127].0, "question 255");
}

#[test]
fn from_small_input_repeats_each_half() {
    let qas: Vec<(String, String)> = (0..6)
        .map(|i| (format!("q{i}"), format!("a{i}")))
        .collect();
    // six pairs are cut to four: q0 q1 stand for 0, q2 q3 for 1
    let qa = QaData::from(qas);
    assert_eq!(qa.qa_set[0][0].0, "q0");
    assert_eq!(qa.qa_set[0][1].0, "q1");
    assert_eq!(qa.qa_set[0][2].0, "q0");
    assert_eq!(qa.qa_set[1][0].0, "q2");
    assert_eq!(qa.qa_set[1][127].0, "q3");
}

#[test]
fn from_large_input_takes_first_half_for_zero() {
    let qas: Vec<(String, String)> = (0..300)
        .map(|i| (format!("q{i}"), format!("a{i}")))
        .collect();
    let qa = QaData::from(qas);
    assert_eq!(qa.qa_set[0][0].0, "q0");
    assert_eq!(qa.qa_set[0][127].0, "q127");
    assert_eq!(qa.qa_set[1][0].0, "q128");
    assert_eq!(qa.qa_set[1][127].0, "q255");
}

#[test]
fn match_answer_reports_bit_and_index() {
    let qa = QaData::new_simple();
    assert_eq!(qa.match_answer("answer 130").ok(), Some((true, 2)));
    assert_eq!(qa.match_answer("answer 5").ok(), Some((false, 5)));
    match qa.match_answer("nope") {
        Err(QaError::NoAnswer(l)) => assert_eq!(l, "nope"),
        _ => panic!("expected an unknown answer"),
    }
}

#[test]
fn duplicate_question_keeps_last_index() {
    let qas: Vec<(String, String)> = vec![
        ("same".to_string(), "x".to_string()),
        ("other".to_string(), "y".to_string()),
    ];
    // both tables repeat one pair 128 times: the last index wins
    let qa = QaData::from(qas);
    assert_eq!(qa.match_question("same").ok(), Some((false, 127)));
    assert_eq!(qa.match_question("other").ok(), Some((true, 127)));
}

#[test]
fn questions_round_trip_hidden_bytes() {
    let qa = QaData::new_simple();
    let data = b"Hello, World!";
    let text = qa.bytes_to_questions_text(data);
    assert_eq!(lines(&text).len(), 8 * data.len());
    let (b, idx) = qa.questions_to_bytes(&text, false, false).ok().unwrap();
    assert_eq!(&b[..], data);
    assert!(idx.is_none());
}

#[test]
fn questions_with_header_give_answer_indices() {
    let qa = QaData::new_simple();
    let text = format!("Questions:\n{}", qa.bytes_to_questions_text_with(&[0x80], &[3, 4, 5, 6, 7, 8, 9, 10]));
    let (b, idx) = qa.questions_to_bytes(&text, true, true).ok().unwrap();
    assert_eq!(&b[..], &[0x80]);
    let idx = idx.unwrap();
    assert_eq!(idx.len(), 8);
    assert_eq!(idx[0], (true, 3));
    assert_eq!(idx[1], (false, 4));
}

#[test]
fn questions_without_header_are_refused() {
    let qa = QaData::new_simple();
    let r = qa.questions_to_bytes("question 1", false, true);
    assert!(matches!(r, Err(QaError::NoHeader)));
}

#[test]
fn unknown_question_line_is_reported() {
    let qa = QaData::new_simple();
    match qa.questions_to_bytes("question 1\nwhat?", false, false) {
        Err(QaError::NoQuestion(l)) => assert_eq!(l, "what?"),
        _ => panic!("expected an unknown question"),
    }
}

#[test]
fn empty_text_is_not_data() {
    let qa = QaData::new_simple();
    assert!(qa.questions_to_bytes("", false, false).is_err());
}

#[test]
fn questions_text_with_choices_is_exact() {
    let qa = QaData::new_simple();
    let t = qa.bytes_to_questions_text_with(&[0x01], &[0, 1, 2, 3, 4, 5, 6, 7]);
    assert_eq!(
        t,
        "question 0\nquestion 1\nquestion 2\nquestion 3\nquestion 4\nquestion 5\nquestion 6\nquestion 135"
    );
}

#[test]
fn answers_to_bytes_reads_answers() {
    let qa = QaData::new_simple();
    let text = "answer 128\nanswer 0\nanswer 200";
    let b = qa.answers_to_bytes(text).ok().unwrap();
    assert_eq!(&b[..], &[0b1010_0000]);
}

#[test]
fn client_request_is_exact() {
    let qa = QaData::new_simple();
    let mut cache = BytesMut::new();
    let n = qa.write_client_data_with(&[0x00], &[0, 0, 0, 0, 0, 0, 0, 0], &mut cache);
    let body = "Questions:\nquestion 0\nquestion 0\nquestion 0\nquestion 0\nquestion 0\nquestion 0\nquestion 0\nquestion 0";
    assert_eq!(n, body.len());
    let want = format!(
        "POST /ask HTTP/1.1\r\nHost: httpbin.org\r\nConnection: keep-alive\r\nContent-Length: {}\r\nContent-Type: text/plain\r\n\r\n{}",
        body.len(),
        body
    );
    assert_eq!(&cache[..], want.as_bytes());
}

#[test]
fn client_request_with_random_questions_reads_back() {
    let qa = QaData::new_simple();
    let mut cache = BytesMut::new();
    let data = b"Hello, World!";
    let n = qa.write_client_data(data, &mut cache);
    let text = String::from_utf8(cache.to_vec()).unwrap();
    let (_, body) = text.split_once("\r\n\r\n").unwrap();
    assert_eq!(body.len(), n);
    let (b, _) = qa.questions_to_bytes(body, true, true).ok().unwrap();
    assert_eq!(&b[..], data);
}

#[test]
fn server_response_is_exact_and_splits_back() {
    let qa = QaData::new_simple();
    let mut cache = BytesMut::new();
    let answers = [(true, 1u8), (false, 2u8)];
    let n = qa.write_server_data_with(&[0xff], &[0; 8], &mut cache, &answers);
    let text = String::from_utf8(cache.to_vec()).unwrap();
    let head = "http/1.1 200 OK\r\nConnection: keep-alive\r\nContent-Type: text/plain\r\nContent-Length: ";
    assert!(text.starts_with(head));
    let (_, body) = text.split_once("\r\n\r\n").unwrap();
    assert_eq!(body.len(), n);
    assert!(body.starts_with("answer 129\nanswer 2\nYou can also ask these questions:\nquestion 128\n"));
    let (a, q) = server_response_to_2_parts(body).unwrap();
    assert_eq!(a, "answer 129\nanswer 2");
    let (b, _) = qa.questions_to_bytes(&q, false, false).ok().unwrap();
    assert_eq!(&b[..], &[0xff]);
}

#[test]
fn response_without_prompt_has_no_parts() {
    assert!(server_response_to_2_parts("answer 1\nquestion 2").is_none());
}

#[test]
fn conn_state_reads_and_owes_answers() {
    let qa = QaData::new_simple();
    let mut server = ConnState::new(true);
    let body = format!("Questions:\n{}", qa.bytes_to_questions_text(&[0x42]));
    let b = server.real_read_text(&qa, &body).ok().unwrap();
    assert_eq!(&b[..], &[0x42]);
    assert_eq!(server.server_cached_answers.len(), 8);

    let mut client = ConnState::new(false);
    let mut cache = BytesMut::new();
    qa.write_server_data(&[7, 8], &mut cache, &server.server_cached_answers);
    let text = String::from_utf8(cache.to_vec()).unwrap();
    let (_, resp_body) = text.split_once("\r\n\r\n").unwrap();
    let got = client.real_read(&qa, resp_body.as_bytes()).ok().unwrap();
    assert_eq!(&got[..], &[7, 8]);
}

#[test]
fn client_read_without_prompt_is_an_error() {
    let qa = QaData::new_simple();
    let mut client = ConnState::new(false);
    assert!(matches!(client.real_read_text(&qa, "answer 1\nquestion 2"), Err(QaError::NoPrompt)));
    assert!(matches!(client.real_read(&qa, b""), Err(QaError::NoPrompt)));
}

#[test]
fn conn_state_write_progress() {
    let qa = QaData::new_simple();
    let mut c = ConnState::new(false);
    c.start_write(&qa, b"hi");
    let total = c.write_cache.len();
    assert!(matches!(c.on_written(10, 2), WriteProgress::Continue));
    assert!(matches!(c.write_state, WriteState::Previous(10)));
    let (cache, head) = c.to_write();
    assert_eq!(cache.len() - head, total - 10);
    assert!(matches!(c.on_written(total - 10, 2), WriteProgress::Done(2)));
    assert!(!c.is_writing());
    c.start_write(&qa, b"hi");
    match c.on_written(c.write_cache.len() + 1, 2) {
        WriteProgress::LengthMismatch(n, left) => {
            assert_eq!(n, left + 1);
        }
        _ => panic!("expected a length mismatch"),
    }
    c.on_write_error();
    assert!(!c.is_writing());
}
