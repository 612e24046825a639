use mini_redis::command::{next_bulk_bytes, next_bulk_string, Command};
use mini_redis::db;
use mini_redis::frame::RespFrame;

fn bulk(data: &[u8]) -> RespFrame {
    RespFrame::BulkString(Some(data.to_vec()))
}

fn cmd(parts: &[&[u8]]) -> RespFrame {
    RespFrame::Array(Some(parts.iter().map(|p| bulk(p)).collect()))
}

fn err_of(frame: RespFrame) -> String {
    match Command::parse(frame) {
        Ok(c) => panic!("unexpected command {:?}", c),
        Err(e) => e,
    }
}

#[test]
fn parse_ping() {
    assert!(matches!(Command::parse(cmd(&[b"PING"])), Ok(Command::Ping(None))));
    assert!(matches!(Command::parse(cmd(&[b"ping"])), Ok(Command::Ping(None))));
    match Command::parse(cmd(&[b"PiNg", b"hello"])) {
        Ok(Command::Ping(Some(s))) => assert_eq!(s, "hello"),
        other => panic!("{:?}", other),
    }
    assert_eq!(
        err_of(RespFrame::Array(Some(vec![bulk(b"PING"), RespFrame::Integer(1)]))),
        "invalid ping argument"
    );
    assert_eq!(
        err_of(RespFrame::Array(Some(vec![bulk(b"PING"), RespFrame::BulkString(None)]))),
        "invalid ping argument"
    );
    assert_eq!(err_of(cmd(&[b"PING", b"\xff"])), "invalid ping arg utf8");
}

#[test]
fn parse_echo_get_del_exists() {
    match Command::parse(cmd(&[b"echo", b"hi"])) {
        Ok(Command::Echo(s)) => assert_eq!(s, "hi"),
        other => panic!("{:?}", other),
    }
    match Command::parse(cmd(&[b"GET", b"k"])) {
        Ok(Command::Get { key }) => assert_eq!(key, "k"),
        other => panic!("{:?}", other),
    }
    match Command::parse(cmd(&[b"del", b"k"])) {
        Ok(Command::Del { key }) => assert_eq!(key, "k"),
        other => panic!("{:?}", other),
    }
    match Command::parse(cmd(&[b"Exists", b"k", b"extra"])) {
        Ok(Command::Exists { key }) => assert_eq!(key, "k"),
        other => panic!("{:?}", other),
    }
}

#[test]
fn parse_set() {
    match Command::parse(cmd(&[b"SET", b"k", b"\x00\xff"])) {
        Ok(Command::SetValue { key, value }) => {
            assert_eq!(key, "k");
            assert_eq!(value, vec![0u8, 255u8]);
        }
        other => panic!("{:?}", other),
    }
    assert_eq!(err_of(cmd(&[b"SET", b"k"])), "SET value: missing argument");
    assert_eq!(err_of(cmd(&[b"SET"])), "SET key: missing argument");
}

#[test]
fn parse_refusals() {
    assert_eq!(err_of(RespFrame::Integer(1)), "expected array frame");
    assert_eq!(err_of(RespFrame::Array(None)), "expected array frame");
    assert_eq!(err_of(RespFrame::Array(Some(vec![]))), "invalid command frame");
    assert_eq!(
        err_of(RespFrame::Array(Some(vec![RespFrame::SimpleString("GET".to_string())]))),
        "invalid command frame"
    );
    assert_eq!(err_of(cmd(&[b"\xffGET"])), "invalid command utf8");
    assert_eq!(err_of(cmd(&[b"foo", b"x"])), "unknown command 'FOO'");
    assert_eq!(err_of(cmd(&[b"GET"])), "GET key: missing argument");
    assert_eq!(
        err_of(RespFrame::Array(Some(vec![bulk(b"GET"), RespFrame::BulkString(None)]))),
        "GET key: expected non-null value"
    );
    assert_eq!(
        err_of(RespFrame::Array(Some(vec![bulk(b"GET"), RespFrame::Integer(3)]))),
        "GET key: expected bulk string"
    );
    assert_eq!(err_of(cmd(&[b"GET", b"\xfe"])), "GET key: invalid utf8");
    assert_eq!(err_of(cmd(&[b"ECHO"])), "ECHO: missing argument");
    assert_eq!(err_of(cmd(&[b"DEL"])), "DEL key: missing argument");
    assert_eq!(err_of(cmd(&[b"EXISTS"])), "EXISTS key: missing argument");
}

#[test]
fn from_name_takes_upper_case_names_only() {
    assert!(matches!(Command::from_name("PING", vec![]), Ok(Command::Ping(None))));
    match Command::from_name("ping", vec![]) {
        Err(e) => assert_eq!(e, "unknown command 'ping'"),
        Ok(c) => panic!("{:?}", c),
    }
}

#[test]
fn next_bulk_helpers_consume_one_argument() {
    let mut args = vec![bulk(b"a"), RespFrame::Integer(1), bulk(b"c")];
    assert_eq!(next_bulk_bytes(&mut args, "x"), Ok(b"a".to_vec()));
    assert_eq!(args.len(), 2);
    assert_eq!(next_bulk_string(&mut args, "y"), Err("y: expected bulk string".to_string()));
    assert_eq!(args.len(), 1);
    assert_eq!(next_bulk_string(&mut args, "z"), Ok("c".to_string()));
    assert_eq!(next_bulk_bytes(&mut args, "w"), Err("w: missing argument".to_string()));
    assert!(args.is_empty());
}

#[test]
fn execute_commands() {
    let mut store = db::new();
    let ping = Command::parse(cmd(&[b"PING"])).unwrap();
    assert_eq!(ping.execute(&mut store), RespFrame::SimpleString("PONG".to_string()));
    let ping = Command::parse(cmd(&[b"PING", b"yo"])).unwrap();
    assert_eq!(ping.execute(&mut store), bulk(b"yo"));
    let echo = Command::parse(cmd(&[b"ECHO", b"hey"])).unwrap();
    assert_eq!(echo.execute(&mut store), bulk(b"hey"));

    let get = Command::parse(cmd(&[b"GET", b"k"])).unwrap();
    assert_eq!(get.execute(&mut store), RespFrame::BulkString(None));
    let set = Command::parse(cmd(&[b"SET", b"k", b"v1"])).unwrap();
    assert_eq!(set.execute(&mut store), RespFrame::SimpleString("OK".to_string()));
    let get = Command::parse(cmd(&[b"GET", b"k"])).unwrap();
    assert_eq!(get.execute(&mut store), bulk(b"v1"));
    let exists = Command::parse(cmd(&[b"EXISTS", b"k"])).unwrap();
    assert_eq!(exists.execute(&mut store), RespFrame::Integer(1));
    let del = Command::parse(cmd(&[b"DEL", b"k"])).unwrap();
    assert_eq!(del.execute(&mut store), RespFrame::Integer(1));
    let del = Command::parse(cmd(&[b"DEL", b"k"])).unwrap();
    assert_eq!(del.execute(&mut store), RespFrame::Integer(0));
    let exists = Command::parse(cmd(&[b"EXISTS", b"k"])).unwrap();
    assert_eq!(exists.execute(&mut store), RespFrame::Integer(0));
    let get = Command::parse(cmd(&[b"GET", b"k"])).unwrap();
    assert_eq!(get.execute(&mut store), RespFrame::BulkString(None));
}

#[test]
fn set_keeps_other_keys() {
    let mut store = db::new();
    Command::parse(cmd(&[b"SET", b"a", b"1"])).unwrap().execute(&mut store);
    Command::parse(cmd(&[b"SET", b"b", b"2"])).unwrap().execute(&mut store);
    Command::parse(cmd(&[b"SET", b"a", b"3"])).unwrap().execute(&mut store);
    let get_b = Command::parse(cmd(&[b"GET", b"b"])).unwrap();
    assert_eq!(get_b.execute(&mut store), bulk(b"2"));
    let get_a = Command::parse(cmd(&[b"GET", b"a"])).unwrap();
    assert_eq!(get_a.execute(&mut store), bulk(b"3"));
}

#[test]
fn names_in_any_ascii_case() {
    for name in [&b"set"[..], b"Set", b"sEt", b"SET"] {
        match Command::parse(cmd(&[name, b"k", b"v"])) {
            Ok(Command::SetValue { key, value }) => {
                assert_eq!(key, "k");
                assert_eq!(value, b"v".to_vec());
            }
            other => panic!("{:?}", other),
        }
    }
}
