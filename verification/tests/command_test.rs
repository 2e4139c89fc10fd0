//! Command parsing and execution against the shared backend.
use bytes::BytesMut;
use rs_simple_redis::{
    handle_request, Backend, BulkString, Command, CommandError, CommandExecutor, HGet, HGetAll,
    HSet, RespArray, RespDecode, RespEncode, RespFrame, RespNull, SimpleString,
};

#[test]
fn test_command() {
    let mut buf = BytesMut::new();

    buf.extend_from_slice(b"*2\r\n$3\r\nget\r\n$5\r\nhello\r\n");

    let frame = RespArray::decode(&mut buf).unwrap();

    let cmd = Command::try_from(RespFrame::Array(frame)).unwrap();

    let backend = Backend::new();

    let ret = cmd.execute(&backend);

    assert_eq!(ret, RespFrame::Null(RespNull));
}

#[test]
fn test_hget_from_resp_array() {
    let mut buf = BytesMut::new();

    buf.extend_from_slice(b"*3\r\n$4\r\nhget\r\n$3\r\nmap\r\n$5\r\nhello\r\n");

    let resp_array = RespArray::decode(&mut buf).unwrap();

    let hget_cmd: HGet = HGet::try_from(resp_array).unwrap();

    assert_eq!(hget_cmd.key, "map");
    assert_eq!(hget_cmd.field, "hello");
}

#[test]
fn test_hget_all_from_resp_array() {
    let mut buf = BytesMut::new();
    buf.extend_from_slice(b"*2\r\n$7\r\nhgetall\r\n$3\r\nmap\r\n");

    let resp_array = RespArray::decode(&mut buf).unwrap();
    let hget_all_cmd: HGetAll = HGetAll::try_from(resp_array).unwrap();

    assert_eq!(hget_all_cmd.key, "map");
}

#[test]
fn test_hset_from_resp_array() {
    let mut buf = BytesMut::new();
    buf.extend_from_slice(b"*4\r\n$4\r\nhset\r\n$3\r\nmap\r\n$5\r\nhello\r\n$5\r\nworld\r\n");

    let resp_array = RespArray::decode(&mut buf).unwrap();

    let hset_cmd: HSet = HSet::try_from(resp_array).unwrap();

    assert_eq!(hset_cmd.key, "map");
    assert_eq!(hset_cmd.field, "hello");
    assert_eq!(hset_cmd.value, RespFrame::BulkString(b"world".into()));
}

#[test]
fn test_hset_hgetall_commands() {
    let backend = Backend::new();

    let cmd = HSet {
        key: "map".into(),
        field: "hello".into(),
        value: RespFrame::BulkString(b"world".into()),
    };

    let result = cmd.execute(&backend);
    assert_eq!(result, RespFrame::SimpleString(SimpleString::new("OK")));

    let cmd = HSet {
        key: "map".into(),
        field: "hello1".into(),
        value: RespFrame::BulkString(b"world1".into()),
    };

    cmd.execute(&backend);

    let cmd = HGet {
        key: "map".into(),
        field: "hello1".into(),
    };

    let result = cmd.execute(&backend);
    assert_eq!(result, RespFrame::BulkString(b"world1".into()));

    let cmd = HGetAll {
        key: "map".into(),
        sort: false,
    };

    let result = cmd.execute(&backend);

    let expected = RespFrame::Array(RespArray::new(vec![
        RespFrame::BulkString(b"hello".into()),
        RespFrame::BulkString(b"world".into()),
        RespFrame::BulkString(b"hello1".into()),
        RespFrame::BulkString(b"world1".into()),
    ]));

    assert_eq!(result, expected);
}

#[test]
fn test_set_then_get_round_trip() {
    let backend = Backend::new();
    backend.set("hello".to_string(), RespFrame::BulkString(b"world".into()));
    assert_eq!(
        backend.get("hello"),
        Some(RespFrame::BulkString(b"world".into()))
    );
    assert_eq!(backend.get("absent"), None);
}

#[test]
fn test_hset_then_hget_round_trip() {
    let backend = Backend::new();
    backend.hset(
        "h".to_string(),
        "f".to_string(),
        RespFrame::Integer(5),
    );
    assert_eq!(backend.hget("h", "f"), Some(RespFrame::Integer(5)));
    assert_eq!(backend.hget("h", "other"), None);
    assert_eq!(backend.hget("other", "f"), None);
}

#[test]
fn test_hgetall_sorted_and_exact() {
    let backend = Backend::new();
    backend.hset("h".to_string(), "zulu".to_string(), RespFrame::Integer(1));
    backend.hset("h".to_string(), "alpha".to_string(), RespFrame::Integer(2));
    backend.hset("h".to_string(), "mike".to_string(), RespFrame::Integer(3));
    backend.hset("h".to_string(), "zulu".to_string(), RespFrame::Integer(4));

    let pairs = backend.hgetall("h");
    let fields: Vec<Vec<u8>> = pairs.iter().map(|p| p.0 .0.clone()).collect();
    assert_eq!(
        fields,
        vec![b"alpha".to_vec(), b"mike".to_vec(), b"zulu".to_vec()]
    );
    assert_eq!(pairs[2].1, RespFrame::Integer(4));
}

fn roundtrip(backend: &Backend, request: &[u8]) -> Result<Vec<u8>, CommandError> {
    let mut buf = BytesMut::new();
    buf.extend_from_slice(request);
    let frame = RespFrame::decode(&mut buf).unwrap();
    assert_eq!(buf.len(), 0);
    handle_request(frame, backend).map(|f| f.encode())
}

#[test]
fn test_wire_scenarios() {
    let backend = Backend::new();

    // a GET before any SET answers with the null frame
    let reply = roundtrip(&backend, b"*2\r\n$3\r\nget\r\n$5\r\nhello\r\n").unwrap();
    assert_eq!(reply, b"_\r\n");

    // SET then GET hands the stored value back
    let reply = roundtrip(&backend, b"*3\r\n$3\r\nset\r\n$5\r\nhello\r\n$5\r\nworld\r\n").unwrap();
    assert_eq!(reply, b"+OK\r\n");
    let reply = roundtrip(&backend, b"*2\r\n$3\r\nget\r\n$5\r\nhello\r\n").unwrap();
    assert_eq!(reply, b"$5\r\nworld\r\n");

    // two HSETs then HGETALL, sorted ascending by field
    let reply = roundtrip(
        &backend,
        b"*4\r\n$4\r\nhset\r\n$3\r\nmap\r\n$5\r\nhello\r\n$5\r\nworld\r\n",
    )
    .unwrap();
    assert_eq!(reply, b"+OK\r\n");
    let reply = roundtrip(
        &backend,
        b"*4\r\n$4\r\nhset\r\n$3\r\nmap\r\n$6\r\nhello1\r\n$6\r\nworld1\r\n",
    )
    .unwrap();
    assert_eq!(reply, b"+OK\r\n");
    let reply = roundtrip(&backend, b"*2\r\n$7\r\nhgetall\r\n$3\r\nmap\r\n").unwrap();
    assert_eq!(
        reply,
        b"*4\r\n$5\r\nhello\r\n$5\r\nworld\r\n$6\r\nhello1\r\n$6\r\nworld1\r\n"
    );

    // a partial request only asks for more bytes
    let mut buf = BytesMut::new();
    buf.extend_from_slice(b"*2\r\n$3\r\nhge");
    assert!(matches!(
        RespFrame::decode(&mut buf),
        Err(rs_simple_redis::RespError::NotComplete)
    ));
    assert_eq!(buf.to_vec(), b"*2\r\n$3\r\nhge".to_vec());

    // an unknown command is fatal for the connection
    let reply = roundtrip(&backend, b"*2\r\n$7\r\nunknown\r\n$1\r\nx\r\n");
    assert!(matches!(reply, Err(CommandError::InvalidCommand(_))));
}

#[test]
fn test_command_names_fold_case() {
    let backend = Backend::new();
    let reply = roundtrip(&backend, b"*3\r\n$3\r\nSeT\r\n$1\r\nk\r\n$1\r\nv\r\n").unwrap();
    assert_eq!(reply, b"+OK\r\n");
    let reply = roundtrip(&backend, b"*2\r\n$3\r\nGET\r\n$1\r\nk\r\n").unwrap();
    assert_eq!(reply, b"$1\r\nv\r\n");
}

#[test]
fn test_invalid_utf8_key_is_rejected() {
    let backend = Backend::new();
    let reply = roundtrip(&backend, b"*2\r\n$3\r\nget\r\n$2\r\n\xff\xfe\r\n");
    assert!(matches!(reply, Err(CommandError::Utf8Error)));
}
