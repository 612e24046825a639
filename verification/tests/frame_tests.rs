use bytes::BytesMut;
use mini_redis::frame::{parse_bytes, parse_frame, read_line_from, RespFrame};

fn encode(frame: &RespFrame) -> Vec<u8> {
    let mut out = BytesMut::new();
    frame.serialize(&mut out);
    out.to_vec()
}

fn bulk(data: &[u8]) -> RespFrame {
    RespFrame::BulkString(Some(data.to_vec()))
}

#[test]
fn serialize_simple_string() {
    assert_eq!(encode(&RespFrame::SimpleString("OK".to_string())), b"+OK\r\n".to_vec());
}

#[test]
fn serialize_error() {
    assert_eq!(
        encode(&RespFrame::Error("ERR bad".to_string())),
        b"-ERR bad\r\n".to_vec()
    );
}

#[test]
fn serialize_integers() {
    assert_eq!(encode(&RespFrame::Integer(1000)), b":1000\r\n".to_vec());
    assert_eq!(encode(&RespFrame::Integer(-42)), b":-42\r\n".to_vec());
    assert_eq!(encode(&RespFrame::Integer(0)), b":0\r\n".to_vec());
    assert_eq!(
        encode(&RespFrame::Integer(i64::MIN)),
        b":-9223372036854775808\r\n".to_vec()
    );
}

#[test]
fn serialize_bulk_strings() {
    assert_eq!(encode(&bulk(b"foobar")), b"$6\r\nfoobar\r\n".to_vec());
    assert_eq!(encode(&bulk(b"")), b"$0\r\n\r\n".to_vec());
    assert_eq!(encode(&RespFrame::BulkString(None)), b"$-1\r\n".to_vec());
}

#[test]
fn serialize_arrays() {
    let frame = RespFrame::Array(Some(vec![bulk(b"foo"), bulk(b"bar")]));
    assert_eq!(encode(&frame), b"*2\r\n$3\r\nfoo\r\n$3\r\nbar\r\n".to_vec());
    assert_eq!(encode(&RespFrame::Array(Some(vec![]))), b"*0\r\n".to_vec());
    assert_eq!(encode(&RespFrame::Array(None)), b"*-1\r\n".to_vec());
}

#[test]
fn serialize_appends_to_what_is_there() {
    let mut out = BytesMut::from(&b"xy"[..]);
    RespFrame::Integer(7).serialize(&mut out);
    assert_eq!(&out[..], b"xy:7\r\n");
}

#[test]
fn read_line_finds_first_terminator() {
    let (line, n) = read_line_from(b"abc\r\ndef\r\n").unwrap();
    assert_eq!(line, b"abc");
    assert_eq!(n, 5);
    let (line, n) = read_line_from(b"a\r\r\n").unwrap();
    assert_eq!(line, b"a\r");
    assert_eq!(n, 4);
    assert!(read_line_from(b"abc\r").is_none());
    assert!(read_line_from(b"").is_none());
}

#[test]
fn parse_simple_string_and_error() {
    assert_eq!(
        parse_bytes(b"+OK\r\n"),
        Some((RespFrame::SimpleString("OK".to_string()), 5))
    );
    assert_eq!(
        parse_bytes(b"-ERR x\r\nrest"),
        Some((RespFrame::Error("ERR x".to_string()), 8))
    );
}

#[test]
fn parse_simple_string_replaces_bad_utf8() {
    assert_eq!(
        parse_bytes(b"+a\xffb\r\n"),
        Some((RespFrame::SimpleString("a\u{FFFD}b".to_string()), 6))
    );
}

#[test]
fn parse_integers() {
    assert_eq!(parse_bytes(b":1000\r\n"), Some((RespFrame::Integer(1000), 7)));
    assert_eq!(parse_bytes(b":-5\r\n"), Some((RespFrame::Integer(-5), 5)));
    assert_eq!(parse_bytes(b":+5\r\n"), Some((RespFrame::Integer(5), 5)));
    assert_eq!(parse_bytes(b":abc\r\n"), None);
    assert_eq!(parse_bytes(b":\r\n"), None);
    assert_eq!(parse_bytes(b":-\r\n"), None);
    assert_eq!(parse_bytes(b":9223372036854775808\r\n"), None);
    assert_eq!(parse_bytes(b":\xff\r\n"), None);
}

#[test]
fn parse_bulk_strings() {
    assert_eq!(parse_bytes(b"$6\r\nfoobar\r\n"), Some((bulk(b"foobar"), 12)));
    assert_eq!(parse_bytes(b"$-1\r\n"), Some((RespFrame::BulkString(None), 5)));
    assert_eq!(parse_bytes(b"$0\r\n\r\n"), Some((bulk(b""), 6)));
    assert_eq!(parse_bytes(b"$6\r\nfoo"), None);
    assert_eq!(parse_bytes(b"$6\r\nfoobar"), None);
    assert_eq!(parse_bytes(b"$-2\r\n"), None);
    assert_eq!(parse_bytes(b"$x\r\nfoo\r\n"), None);
}

#[test]
fn parse_bulk_string_requires_terminator() {
    assert_eq!(parse_bytes(b"$3\r\nfooXY"), None);
    assert_eq!(parse_bytes(b"$3\r\nfoo\rX"), None);
    assert_eq!(parse_bytes(b"$3\r\nfoo\r"), None);
    assert_eq!(parse_bytes(b"$3\r\nfoo\r\nX"), Some((bulk(b"foo"), 9)));
}

#[test]
fn parse_arrays() {
    let expected = RespFrame::Array(Some(vec![bulk(b"foo"), bulk(b"bar")]));
    assert_eq!(
        parse_bytes(b"*2\r\n$3\r\nfoo\r\n$3\r\nbar\r\n"),
        Some((expected, 22))
    );
    assert_eq!(parse_bytes(b"*-1\r\n"), Some((RespFrame::Array(None), 5)));
    assert_eq!(parse_bytes(b"*0\r\n"), Some((RespFrame::Array(Some(vec![])), 4)));
    assert_eq!(parse_bytes(b"*2\r\n$3\r\nfoo\r\n"), None);
    assert_eq!(parse_bytes(b"*-3\r\n"), None);
}

#[test]
fn parse_nested_arrays() {
    let inner = RespFrame::Array(Some(vec![RespFrame::Integer(1), RespFrame::Integer(2)]));
    let outer = RespFrame::Array(Some(vec![inner, RespFrame::SimpleString("x".to_string())]));
    assert_eq!(
        parse_bytes(b"*2\r\n*2\r\n:1\r\n:2\r\n+x\r\n"),
        Some((outer, 20))
    );
}

#[test]
fn parse_refuses_incomplete_or_unknown() {
    assert_eq!(parse_bytes(b""), None);
    assert_eq!(parse_bytes(b"+OK"), None);
    assert_eq!(parse_bytes(b"?OK\r\n"), None);
}

#[test]
fn roundtrip_of_nested_frames() {
    let frame = RespFrame::Array(Some(vec![
        RespFrame::SimpleString("hi".to_string()),
        RespFrame::Error("no".to_string()),
        RespFrame::Integer(-17),
        bulk(b"\x00\r\n\xff"),
        RespFrame::BulkString(None),
        RespFrame::Array(None),
        RespFrame::Array(Some(vec![RespFrame::Integer(3)])),
    ]));
    let mut bytes = encode(&frame);
    let written = bytes.len();
    bytes.extend_from_slice(b"*1\r\n");
    assert_eq!(parse_bytes(&bytes), Some((frame, written)));
}

#[test]
fn parse_frame_takes_one_frame() {
    let mut buf = BytesMut::from(&b"+OK\r\n:1\r\n"[..]);
    assert_eq!(parse_frame(&mut buf), Some(RespFrame::SimpleString("OK".to_string())));
    assert_eq!(&buf[..], b":1\r\n");
    assert_eq!(parse_frame(&mut buf), Some(RespFrame::Integer(1)));
    assert!(buf.is_empty());
    assert_eq!(parse_frame(&mut buf), None);
}

#[test]
fn parse_frame_leaves_incomplete_input() {
    let mut buf = BytesMut::from(&b"*2\r\n$3\r\nfoo\r\n$3\r\nba"[..]);
    assert_eq!(parse_frame(&mut buf), None);
    assert_eq!(&buf[..], b"*2\r\n$3\r\nfoo\r\n$3\r\nba");
    buf.extend_from_slice(b"r\r\n");
    assert_eq!(
        parse_frame(&mut buf),
        Some(RespFrame::Array(Some(vec![bulk(b"foo"), bulk(b"bar")])))
    );
    assert!(buf.is_empty());
}

#[test]
fn more_bytes_keep_a_complete_parse() {
    let first = parse_bytes(b":12\r\n");
    let extended = parse_bytes(b":12\r\n$3\r\nabc\r\n");
    assert_eq!(first, extended);
}

#[test]
fn as_bulk_gives_payload() {
    assert_eq!(bulk(b"abc").as_bulk(), Some(&b"abc"[..]));
    assert_eq!(RespFrame::BulkString(None).as_bulk(), None);
    assert_eq!(RespFrame::Integer(1).as_bulk(), None);
}

#[test]
fn clone_copies_every_part() {
    let frame = RespFrame::Array(Some(vec![
        RespFrame::SimpleString("a".to_string()),
        bulk(b"xyz"),
        RespFrame::Array(Some(vec![RespFrame::Integer(-1), RespFrame::BulkString(None)])),
    ]));
    assert_eq!(frame.clone(), frame);
}

#[test]
fn encoded_len_and_to_bytes() {
    let frame = RespFrame::Array(Some(vec![bulk(b"foo"), RespFrame::Integer(-12)]));
    let bytes = frame.to_bytes().unwrap();
    assert_eq!(&bytes[..], b"*2\r\n$3\r\nfoo\r\n:-12\r\n");
    assert_eq!(frame.encoded_len(), Some(bytes.len()));
    assert_eq!(RespFrame::BulkString(None).encoded_len(), Some(5));
    assert_eq!(RespFrame::SimpleString("OK".to_string()).encoded_len(), Some(5));
}

#[test]
fn describe_frames() {
    assert_eq!(RespFrame::SimpleString("a\"b".to_string()).describe(), "SimpleString(\"a\\\"b\")");
    assert_eq!(RespFrame::Error("e".to_string()).describe(), "Error(\"e\")");
    assert_eq!(RespFrame::Integer(-3).describe(), "Integer(-3)");
    assert_eq!(bulk(b"hi").describe(), "BulkString(\"hi\")");
    assert_eq!(RespFrame::BulkString(None).describe(), "BulkString(null)");
    assert_eq!(
        RespFrame::Array(Some(vec![RespFrame::Integer(1), bulk(b"x")])).describe(),
        "Array([Integer(1), BulkString(Some([120]))])"
    );
    assert_eq!(RespFrame::Array(None).describe(), "Array(null)");
}

#[test]
fn no_proper_prefix_parses() {
    let bytes = b"*2\r\n$3\r\nfoo\r\n:7\r\n";
    for k in 0..bytes.len() {
        assert_eq!(parse_bytes(&bytes[..k]), None, "prefix of {} bytes", k);
    }
    assert!(parse_bytes(bytes).is_some());
}
