//! Round-trip, streaming and error behaviour of the RESP codec.
use bytes::BytesMut;
use rs_simple_redis::{
    BulkString, Double, RespArray, RespDecode, RespEncode, RespError, RespFrame, RespMap, RespNull,
    RespNullArray, RespNullBulkString, RespSet, SimpleError, SimpleString,
};

fn nested_frame() -> RespFrame {
    let mut map = RespMap::new();
    map.insert(
        SimpleString::new("alpha"),
        RespFrame::BulkString(BulkString::new(b"one")),
    );
    map.insert(SimpleString::new("beta"), RespFrame::Integer(-42));
    RespFrame::Array(RespArray::new(vec![
        RespFrame::SimpleString(SimpleString::new("hello")),
        RespFrame::Error(SimpleError::new("oops")),
        RespFrame::Integer(123),
        RespFrame::BulkString(BulkString::new(b"wor\r\nld")),
        RespFrame::NullBulkString(RespNullBulkString),
        RespFrame::NullArray(RespNullArray),
        RespFrame::Null(RespNull),
        RespFrame::Boolean(true),
        RespFrame::Boolean(false),
        RespFrame::Double(Double::new("+1.5")),
        RespFrame::Dict(map),
        RespFrame::SetOf(RespSet::new(vec![
            RespFrame::Integer(1),
            RespFrame::Integer(1),
        ])),
    ]))
}

#[test]
fn test_round_trip_nested() {
    let frame = nested_frame();
    let encoded = nested_frame().encode();
    let mut buf = BytesMut::new();
    buf.extend_from_slice(&encoded);
    let decoded = RespFrame::decode(&mut buf).unwrap();
    assert_eq!(decoded, frame);
    assert_eq!(buf.len(), 0);
}

#[test]
fn test_every_strict_prefix_is_incomplete() {
    let encoded = nested_frame().encode();
    for cut in 0..encoded.len() {
        let mut buf = BytesMut::new();
        buf.extend_from_slice(&encoded[..cut]);
        let before: Vec<u8> = buf.to_vec();
        match RespFrame::decode(&mut buf) {
            Err(RespError::NotComplete) => {}
            other => panic!("prefix of {} bytes gave {:?}", cut, other),
        }
        assert_eq!(buf.to_vec(), before, "buffer changed at cut {}", cut);
    }
}

#[test]
fn test_pipelined_frames_decode_in_order() {
    let f1 = RespFrame::SimpleString(SimpleString::new("first"));
    let f2 = RespFrame::Integer(7);
    let mut buf = BytesMut::new();
    buf.extend_from_slice(&RespFrame::SimpleString(SimpleString::new("first")).encode());
    buf.extend_from_slice(&RespFrame::Integer(7).encode());
    assert_eq!(RespFrame::decode(&mut buf).unwrap(), f1);
    assert_eq!(RespFrame::decode(&mut buf).unwrap(), f2);
    assert_eq!(buf.len(), 0);
}

#[test]
fn test_expect_length_matches_encoding() {
    let encoded = nested_frame().encode();
    assert_eq!(RespFrame::expect_length(&encoded).unwrap(), encoded.len());
    let simple = RespFrame::SimpleString(SimpleString::new("OK")).encode();
    assert_eq!(RespFrame::expect_length(&simple).unwrap(), simple.len());
    let nb = RespFrame::NullBulkString(RespNullBulkString).encode();
    assert_eq!(RespFrame::expect_length(&nb).unwrap(), nb.len());
    let na = RespFrame::NullArray(RespNullArray).encode();
    assert_eq!(RespFrame::expect_length(&na).unwrap(), na.len());
}

#[test]
fn test_integer_encoding_is_exact() {
    assert_eq!(RespFrame::Integer(7).encode(), b":+7\r\n");
    assert_eq!(RespFrame::Integer(0).encode(), b":+0\r\n");
    assert_eq!(RespFrame::Integer(-3).encode(), b":-3\r\n");
    let mut buf = BytesMut::new();
    buf.extend_from_slice(&RespFrame::Integer(i64::MIN).encode());
    assert_eq!(
        RespFrame::decode(&mut buf).unwrap(),
        RespFrame::Integer(i64::MIN)
    );
}

#[test]
fn test_empty_bulk_string_decodes() {
    let mut buf = BytesMut::new();
    buf.extend_from_slice(b"$0\r\n\r\n");
    assert_eq!(
        RespFrame::decode(&mut buf).unwrap(),
        RespFrame::BulkString(BulkString::new(b""))
    );
    assert_eq!(buf.len(), 0);
}

#[test]
fn test_null_forms_take_precedence() {
    let mut buf = BytesMut::new();
    buf.extend_from_slice(b"$-1\r\n");
    assert_eq!(
        RespFrame::decode(&mut buf).unwrap(),
        RespFrame::NullBulkString(RespNullBulkString)
    );
    let mut buf = BytesMut::new();
    buf.extend_from_slice(b"*-1\r\n");
    assert_eq!(
        RespFrame::decode(&mut buf).unwrap(),
        RespFrame::NullArray(RespNullArray)
    );
    let mut buf = BytesMut::new();
    buf.extend_from_slice(b"_\r\n");
    assert_eq!(RespFrame::decode(&mut buf).unwrap(), RespFrame::Null(RespNull));
}

#[test]
fn test_double_round_trips_both_notations() {
    let mut buf = BytesMut::new();
    buf.extend_from_slice(&RespFrame::Double(Double::new("+1.5")).encode());
    assert_eq!(
        RespFrame::decode(&mut buf).unwrap(),
        RespFrame::Double(Double::new("+1.5"))
    );
    let mut buf = BytesMut::new();
    buf.extend_from_slice(&RespFrame::Double(Double::new("+1e9")).encode());
    assert_eq!(
        RespFrame::decode(&mut buf).unwrap(),
        RespFrame::Double(Double::new("+1e9"))
    );
}

#[test]
fn test_decode_error_variants() {
    let mut buf = BytesMut::new();
    buf.extend_from_slice(b"x what is this\r\n");
    assert!(matches!(
        RespFrame::decode(&mut buf),
        Err(RespError::InvalidFrameType(_))
    ));

    let mut buf = BytesMut::new();
    buf.extend_from_slice(b":abc\r\n");
    assert!(matches!(
        RespFrame::decode(&mut buf),
        Err(RespError::ParseIntError)
    ));

    let mut buf = BytesMut::new();
    buf.extend_from_slice(b"$-2\r\nxx\r\n");
    assert!(matches!(
        RespFrame::decode(&mut buf),
        Err(RespError::InvalidFrameLength(_))
    ));

    let mut buf = BytesMut::new();
    buf.extend_from_slice(b",notanumber\r\n");
    assert!(matches!(
        RespFrame::decode(&mut buf),
        Err(RespError::ParseFloatError)
    ));

    let mut buf = BytesMut::new();
    buf.extend_from_slice(b"#x\r\n");
    assert!(matches!(
        RespFrame::decode(&mut buf),
        Err(RespError::InvalidFrameType(_))
    ));
}

#[test]
fn test_map_encoding_sorted_by_key() {
    let mut map = RespMap::new();
    map.insert(SimpleString::new("zulu"), RespFrame::Integer(1));
    map.insert(SimpleString::new("alpha"), RespFrame::Integer(2));
    map.insert(SimpleString::new("zulu"), RespFrame::Integer(3));
    let encoded = RespFrame::Dict(map).encode();
    assert_eq!(encoded, b"%2\r\n+alpha\r\n:+2\r\n+zulu\r\n:+3\r\n");
}

#[test]
fn test_bulk_string_is_binary_safe() {
    let payload = b"\x00\x01\r\n\xff binary";
    let mut buf = BytesMut::new();
    buf.extend_from_slice(&RespFrame::BulkString(BulkString::new(payload)).encode());
    assert_eq!(
        RespFrame::decode(&mut buf).unwrap(),
        RespFrame::BulkString(BulkString::new(payload))
    );
}

#[test]
fn test_empty_array_decodes() {
    let mut buf = BytesMut::new();
    buf.extend_from_slice(b"*0\r\n");
    assert_eq!(
        RespFrame::decode(&mut buf).unwrap(),
        RespFrame::Array(RespArray::new(vec![]))
    );
    assert_eq!(buf.len(), 0);
}

#[test]
fn test_plus_signed_counts_are_accepted() {
    let mut buf = BytesMut::new();
    buf.extend_from_slice(b":+5\r\n");
    assert_eq!(RespFrame::decode(&mut buf).unwrap(), RespFrame::Integer(5));

    let mut buf = BytesMut::new();
    buf.extend_from_slice(b"$+2\r\nab\r\n");
    assert_eq!(
        RespFrame::decode(&mut buf).unwrap(),
        RespFrame::BulkString(BulkString::new(b"ab"))
    );
}

#[test]
fn test_expect_length_on_partial_input() {
    let encoded = nested_frame().encode();
    for cut in 0..encoded.len() {
        match RespFrame::expect_length(&encoded[..cut]) {
            Err(RespError::NotComplete) => {}
            other => panic!("prefix of {} bytes measured as {:?}", cut, other),
        }
    }
}

#[test]
fn test_string_to_vec_u8() {
    let data = "hello world".to_owned();

    let _bytes = data.as_bytes();

    let _byte_array = data.into_bytes();
}

#[test]
fn test_simple_string_encode() {
    let frame: RespFrame = SimpleString::new("OK").into();

    assert_eq!(frame.encode(), b"+OK\r\n");

    let simple_string = SimpleString::new("OK");

    assert_eq!(simple_string.encode(), b"+OK\r\n");
}

#[test]
fn test_convert() {
    let _frame: RespFrame = SimpleString::new("tome").into();
}
