use rucimp::embed::{EmbedReadChoice, EmbedReadOutcome, EmbedReader};
use bytes::BytesMut;
use rucimp::embed::{
    advance_packet_index, direction_match_write, frame_packet, EmbedWriteChoice, EmbedWriteResult,
    EmbedWriter, PayloadInfo, WriteOp, READ_DIRECTION, WRITE_DIRECTION,
};
use rucimp::recorder::ProxyBehavior;

#[test]
fn direction_decides_turn() {
    assert!(direction_match_write(ProxyBehavior::DECODE, WRITE_DIRECTION));
    assert!(!direction_match_write(ProxyBehavior::DECODE, READ_DIRECTION));
    assert!(direction_match_write(ProxyBehavior::ENCODE, READ_DIRECTION));
    assert!(!direction_match_write(ProxyBehavior::UNSPECIFIED, READ_DIRECTION));
}

#[test]
fn packet_index_goes_round() {
    assert_eq!(advance_packet_index(0, 3), 1);
    assert_eq!(advance_packet_index(2, 3), 0);
    assert_eq!(advance_packet_index(0, 1), 0);
}

#[test]
fn framing_pads_or_cuts() {
    let (p, n) = frame_packet(10, b"abc");
    assert_eq!(n, 3);
    assert_eq!(&p[..], &[0, 0, 0, 3, b'a', b'b', b'c', 0, 0, 0]);
    let (p, n) = frame_packet(6, b"abcdef");
    assert_eq!(n, 2);
    assert_eq!(&p[..], &[0, 0, 0, 2, b'a', b'b']);
    let (p, n) = frame_packet(3, b"abc");
    assert_eq!(n, 0);
    assert_eq!(&p[..], &[0, 0, 0]);
}

#[test]
fn unframing_gives_data_back() {
    let (p, n) = frame_packet(300, b"hello");
    let len = u32::from_be_bytes([p[0], p[1], p[2], p[3]]) as usize;
    assert_eq!(len, n);
    assert_eq!(&p[4..4 + len], b"hello");
}

fn file() -> Vec<PayloadInfo> {
    vec![
        PayloadInfo { direction: READ_DIRECTION, length: 8 },
        PayloadInfo { direction: READ_DIRECTION, length: 2 },
        PayloadInfo { direction: WRITE_DIRECTION, length: 8 },
    ]
}

#[test]
fn writer_sends_packets_in_turn() {
    let mut w = EmbedWriter::new(file(), ProxyBehavior::ENCODE, None);
    let op = match w.next_write(b"abcdef") {
        EmbedWriteChoice::Write(op) => op,
        EmbedWriteChoice::Wait => panic!("expected a write"),
    };
    assert_eq!(op, WriteOp::Packet(8, 4, false));
    assert_eq!(&w.out[..], &[0, 0, 0, 4, b'a', b'b', b'c', b'd']);
    // a short write leaves the rest
    assert_eq!(w.on_written(op, Some(5)), EmbedWriteResult::Continue);
    let op = match w.next_write(b"abcdef") {
        EmbedWriteChoice::Write(op) => op,
        EmbedWriteChoice::Wait => panic!("expected a write"),
    };
    assert_eq!(op, WriteOp::Remain(4, false));
    assert_eq!(&w.out[..], &[b'b', b'c', b'd']);
    assert_eq!(w.on_written(op, Some(3)), EmbedWriteResult::Done(4));
    assert_eq!(w.index, 1);
    // the next recorded packet is padding
    let op = match w.next_write(b"ef") {
        EmbedWriteChoice::Write(op) => op,
        EmbedWriteChoice::Wait => panic!("expected a write"),
    };
    assert_eq!(op, WriteOp::Padding(2));
    assert_eq!(w.on_written(op, Some(2)), EmbedWriteResult::Continue);
    assert_eq!(w.index, 2);
    // then it is the other side's turn
    assert!(matches!(w.next_write(b"ef"), EmbedWriteChoice::Wait));
}

#[test]
fn writer_sends_first_data_first() {
    let first = BytesMut::from(&b"xyz"[..]);
    let mut w = EmbedWriter::new(file(), ProxyBehavior::ENCODE, Some(first));
    let op = match w.next_write(b"other") {
        EmbedWriteChoice::Write(op) => op,
        EmbedWriteChoice::Wait => panic!("expected a write"),
    };
    assert_eq!(op, WriteOp::Packet(8, 3, true));
    assert_eq!(&w.out[..], &[0, 0, 0, 3, b'x', b'y', b'z', 0]);
    assert_eq!(w.on_written(op, Some(8)), EmbedWriteResult::Continue);
    assert!(w.write_state.is_none());
    assert_eq!(w.on_written(WriteOp::Padding(2), None), EmbedWriteResult::Failed);
}

#[test]
fn reader_reads_whole_packet() {
    let file = vec![PayloadInfo { direction: WRITE_DIRECTION, length: 10 }];
    let mut r = EmbedReader::new(file, ProxyBehavior::DECODE, vec![]);
    let n = match r.before_read(100) {
        EmbedReadChoice::ReadInto(n) => n,
        _ => panic!("expected a read"),
    };
    assert_eq!(n, 10);
    let (packet, _) = frame_packet(10, b"abc");
    match r.after_read(Some(&packet[..]), 100) {
        EmbedReadOutcome::Deliver(d) => assert_eq!(d, b"abc".to_vec()),
        _ => panic!("expected data"),
    }
    assert_eq!(r.index, 0);
    assert_eq!(r.left_to_read_remote, 0);
}

#[test]
fn reader_hands_buffered_bytes_first() {
    let file = vec![PayloadInfo { direction: WRITE_DIRECTION, length: 10 }];
    let mut r = EmbedReader::new(file, ProxyBehavior::DECODE, b"early".to_vec());
    match r.before_read(3) {
        EmbedReadChoice::Deliver(d) => assert_eq!(d, b"ear".to_vec()),
        _ => panic!("expected buffered bytes"),
    }
    match r.before_read(3) {
        EmbedReadChoice::Deliver(d) => assert_eq!(d, b"ly".to_vec()),
        _ => panic!("expected buffered bytes"),
    }
    let mut w = EmbedReader::new(
        vec![PayloadInfo { direction: READ_DIRECTION, length: 4 }],
        ProxyBehavior::DECODE,
        vec![],
    );
    assert!(matches!(w.before_read(3), EmbedReadChoice::Wait));
}

#[test]
fn reader_short_room_keeps_rest_to_come() {
    let file = vec![PayloadInfo { direction: WRITE_DIRECTION, length: 10 }];
    let mut r = EmbedReader::new(file, ProxyBehavior::DECODE, vec![]);
    let n = match r.before_read(6) {
        EmbedReadChoice::ReadInto(n) => n,
        _ => panic!("expected a read"),
    };
    assert_eq!(n, 6);
    let (packet, _) = frame_packet(10, b"abcdef");
    assert!(matches!(r.after_read(Some(&packet[..6]), 6), EmbedReadOutcome::Again));
    assert_eq!(r.left_to_read_remote, 4);
    assert!(matches!(r.after_read(None, 6), EmbedReadOutcome::Failed));
}
