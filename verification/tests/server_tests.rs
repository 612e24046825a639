use bytes::BytesMut;
use mini_redis::db;
use mini_redis::frame::{parse_frame, RespFrame};
use mini_redis::server::{answer_all, buffer_overflow_reply, respond, MAX_BUFFER_BYTES};

fn bulk(data: &[u8]) -> RespFrame {
    RespFrame::BulkString(Some(data.to_vec()))
}

#[test]
fn buffer_limit_is_64_mib() {
    assert_eq!(MAX_BUFFER_BYTES, 64 * 1024 * 1024);
    assert_eq!(buffer_overflow_reply(MAX_BUFFER_BYTES), None);
    assert_eq!(buffer_overflow_reply(0), None);
    assert_eq!(
        buffer_overflow_reply(MAX_BUFFER_BYTES + 1),
        Some(RespFrame::Error("ERR buffer limit exceeded".to_string()))
    );
}

#[test]
fn respond_reports_refusals_as_errors() {
    let mut store = db::new();
    let reply = respond(RespFrame::Array(Some(vec![bulk(b"nope")])), &mut store);
    assert_eq!(reply, RespFrame::Error("ERR unknown command 'NOPE'".to_string()));
    let reply = respond(RespFrame::Integer(3), &mut store);
    assert_eq!(reply, RespFrame::Error("ERR expected array frame".to_string()));
}

#[test]
fn pipelined_requests_are_answered_in_order() {
    let mut store = db::new();
    let mut buf = BytesMut::from(
        &b"*3\r\n$3\r\nSET\r\n$1\r\nk\r\n$2\r\nv1\r\n*2\r\n$3\r\nGET\r\n$1\r\nk\r\n*1\r\n$4\r\nPING\r\n"[..],
    );
    let mut replies = Vec::new();
    while let Some(frame) = parse_frame(&mut buf) {
        replies.push(respond(frame, &mut store));
    }
    assert_eq!(
        replies,
        vec![
            RespFrame::SimpleString("OK".to_string()),
            bulk(b"v1"),
            RespFrame::SimpleString("PONG".to_string()),
        ]
    );
    let mut out = BytesMut::new();
    for r in &replies {
        r.serialize(&mut out);
    }
    assert_eq!(&out[..], b"+OK\r\n$2\r\nv1\r\n+PONG\r\n");
}

#[test]
fn answer_all_answers_in_order_and_keeps_the_tail() {
    let mut store = db::new();
    let mut buf = BytesMut::from(&b"*1\r\n$4\r\nPING\r\n*2\r\n$4\r\necho\r\n$2\r\nhi\r\n*2\r\n$3\r\nGE"[..]);
    let replies = answer_all(&mut buf, &mut store);
    assert_eq!(
        replies,
        vec![RespFrame::SimpleString("PONG".to_string()), bulk(b"hi")]
    );
    assert_eq!(&buf[..], b"*2\r\n$3\r\nGE");
}

#[test]
fn split_reads_give_the_same_replies() {
    let input: &[u8] = b"*3\r\n$3\r\nSET\r\n$1\r\nk\r\n$1\r\nv\r\n*2\r\n$3\r\nGET\r\n$1\r\nk\r\n*2\r\n$3\r\nDEL\r\n$1\r\nk\r\n";
    let mut whole_store = db::new();
    let mut whole = BytesMut::from(input);
    let expected = answer_all(&mut whole, &mut whole_store);
    assert_eq!(expected.len(), 3);
    for split in 0..input.len() {
        let mut store = db::new();
        let mut buf = BytesMut::from(&input[..split]);
        let mut replies = answer_all(&mut buf, &mut store);
        buf.extend_from_slice(&input[split..]);
        replies.extend(answer_all(&mut buf, &mut store));
        assert_eq!(replies, expected, "split at {}", split);
        assert!(buf.is_empty());
        assert!(!store.contains_key("k"));
    }
}
