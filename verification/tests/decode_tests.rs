use bytes::BytesMut;
use resp_codec::{
    BulkString, Double, RespArray, RespEncode, RespError, RespFrame, RespMap, RespNull,
    RespNullArray, RespNullBulkString, RespSet, SimpleError, SimpleString,
};

fn buf(bytes: &[u8]) -> BytesMut {
    BytesMut::from(bytes)
}

#[test]
fn test_decode_simple_string() {
    let mut b = buf(b"+OK\r\n");
    let frame = RespFrame::decode(&mut b).unwrap();
    assert_eq!(
        frame,
        RespFrame::SimpleString(SimpleString::new("OK".to_string()))
    );
    assert!(b.is_empty());
}

#[test]
fn test_decode_simple_error() {
    let mut b = buf(b"-Error message\r\n");
    let frame = RespFrame::decode(&mut b).unwrap();
    assert_eq!(
        frame,
        RespFrame::Error(SimpleError::new("Error message".to_string()))
    );
}

#[test]
fn test_decode_integer() {
    let mut b = buf(b":+123\r\n");
    assert_eq!(RespFrame::decode(&mut b), Ok(RespFrame::Integer(123)));
    let mut b = buf(b":-123\r\n");
    assert_eq!(RespFrame::decode(&mut b), Ok(RespFrame::Integer(-123)));
    let mut b = buf(b":123\r\n");
    assert_eq!(RespFrame::decode(&mut b), Ok(RespFrame::Integer(123)));
    let mut b = buf(b":+0042\r\n");
    assert_eq!(RespFrame::decode(&mut b), Ok(RespFrame::Integer(42)));
}

#[test]
fn test_decode_bulk_string_with_crlf_inside() {
    let mut b = buf(b"$12\r\nhello\r\nworld\r\n");
    assert_eq!(
        RespFrame::decode(&mut b),
        Ok(RespFrame::BulkString(BulkString::new(
            b"hello\r\nworld".to_vec()
        )))
    );
    assert!(b.is_empty());
}

#[test]
fn test_decode_boolean() {
    let mut b = buf(b"#t\r\n");
    assert_eq!(RespFrame::decode(&mut b), Ok(RespFrame::Boolean(true)));
    let mut b = buf(b"#f\r\n");
    assert_eq!(RespFrame::decode(&mut b), Ok(RespFrame::Boolean(false)));
}

#[test]
fn test_decode_double() {
    let mut b = buf(b",+1.23456\r\n");
    assert_eq!(
        RespFrame::decode(&mut b),
        Ok(RespFrame::Double(Double::new(b"+1.23456".to_vec())))
    );
    let mut b = buf(b",-1e8\r\n");
    assert_eq!(
        RespFrame::decode(&mut b),
        Ok(RespFrame::Double(Double::new(b"-1e8".to_vec())))
    );
}

#[test]
fn test_null_distinctness() {
    let mut b1 = buf(b"_\r\n");
    let mut b2 = buf(b"$-1\r\n");
    let mut b3 = buf(b"*-1\r\n");
    let f1 = RespFrame::decode(&mut b1).unwrap();
    let f2 = RespFrame::decode(&mut b2).unwrap();
    let f3 = RespFrame::decode(&mut b3).unwrap();
    assert_eq!(f1, RespFrame::Null(RespNull));
    assert_eq!(f2, RespFrame::NullBulkString(RespNullBulkString));
    assert_eq!(f3, RespFrame::NullArray(RespNullArray));
    assert_ne!(f1, f2);
    assert_ne!(f1, f3);
    assert_ne!(f2, f3);
}

#[test]
fn test_decode_partial_then_complete() {
    let mut b = buf(b"+OK\r");
    assert_eq!(RespFrame::decode(&mut b), Err(RespError::NotComplete));
    assert_eq!(b.as_ref(), b"+OK\r");
    b.extend_from_slice(b"\n");
    assert_eq!(
        RespFrame::decode(&mut b),
        Ok(RespFrame::SimpleString(SimpleString::new("OK".to_string())))
    );
    assert!(b.is_empty());
}

#[test]
fn test_decode_truncated_array_is_atomic() {
    let mut b = buf(b"*2\r\n+Hello\r\n+Wor");
    assert_eq!(RespFrame::decode(&mut b), Err(RespError::NotComplete));
    assert_eq!(b.as_ref(), b"*2\r\n+Hello\r\n+Wor");
    b.extend_from_slice(b"ld\r\n");
    let frame = RespFrame::decode(&mut b).unwrap();
    assert_eq!(
        frame,
        RespFrame::Arrays(RespArray::new(vec![
            RespFrame::SimpleString(SimpleString::new("Hello".to_string())),
            RespFrame::SimpleString(SimpleString::new("World".to_string())),
        ]))
    );
    assert!(b.is_empty());
}

#[test]
fn test_decode_map() {
    let mut b = buf(b"%2\r\n+a\r\n:+1\r\n+b\r\n,+1234.567\r\n");
    let frame = RespFrame::decode(&mut b).unwrap();
    let mut expected = RespMap::new();
    expected.insert("a".to_string(), RespFrame::Integer(1));
    expected.insert(
        "b".to_string(),
        RespFrame::Double(Double::new(b"+1234.567".to_vec())),
    );
    assert_eq!(frame, RespFrame::MapFrame(expected));
}

#[test]
fn test_decode_set() {
    let mut b = buf(b"~3\r\n:+1\r\n:+2\r\n:+3\r\n");
    let frame = RespFrame::decode(&mut b).unwrap();
    assert_eq!(
        frame,
        RespFrame::SetFrame(RespSet::new(vec![
            RespFrame::Integer(1),
            RespFrame::Integer(2),
            RespFrame::Integer(3),
        ]))
    );
}

#[test]
fn test_decode_invalid_frame_type() {
    let mut b = buf(b"x123\r\n");
    assert_eq!(RespFrame::decode(&mut b), Err(RespError::InvalidFrameType));
}

#[test]
fn test_decode_invalid_frame_length() {
    let mut b = buf(b"$-2\r\n");
    assert_eq!(RespFrame::decode(&mut b), Err(RespError::InvalidFrameLength));
    let mut b = buf(b"*-5\r\n");
    assert_eq!(RespFrame::decode(&mut b), Err(RespError::InvalidFrameLength));
}

#[test]
fn test_decode_parse_int_error() {
    let mut b = buf(b":12a\r\n");
    assert_eq!(RespFrame::decode(&mut b), Err(RespError::ParseIntError));
    let mut b = buf(b":99999999999999999999\r\n");
    assert_eq!(RespFrame::decode(&mut b), Err(RespError::ParseIntError));
}

#[test]
fn test_decode_parse_float_error() {
    let mut b = buf(b",abc\r\n");
    assert_eq!(RespFrame::decode(&mut b), Err(RespError::ParseFloatError));
    let mut b = buf(b",1.\r\n");
    assert_eq!(RespFrame::decode(&mut b), Err(RespError::ParseFloatError));
}

#[test]
fn test_decode_utf8_error() {
    let mut b = buf(b"+\xff\xfe\r\n");
    assert_eq!(RespFrame::decode(&mut b), Err(RespError::Utf8Error));
}

#[test]
fn test_decode_invalid_boolean_body() {
    let mut b = buf(b"#x\r\n");
    assert_eq!(RespFrame::decode(&mut b), Err(RespError::InvalidFrame));
}

#[test]
fn test_decode_missing_bulk_terminator() {
    let mut b = buf(b"$5\r\nHelloXY");
    assert_eq!(RespFrame::decode(&mut b), Err(RespError::InvalidFrame));
}

#[test]
fn test_decode_leaves_following_frame() {
    let mut b = buf(b"+one\r\n+two\r\n");
    assert_eq!(
        RespFrame::decode(&mut b),
        Ok(RespFrame::SimpleString(SimpleString::new("one".to_string())))
    );
    assert_eq!(b.as_ref(), b"+two\r\n");
    assert_eq!(
        RespFrame::decode(&mut b),
        Ok(RespFrame::SimpleString(SimpleString::new("two".to_string())))
    );
    assert!(b.is_empty());
}

#[test]
fn test_expect_length() {
    assert_eq!(RespFrame::expect_length(b"$5\r\nHello\r\n"), Ok(11));
    assert_eq!(RespFrame::expect_length(b"+OK\r\nmore"), Ok(5));
    assert_eq!(RespFrame::expect_length(b"+OK"), Err(RespError::NotComplete));
    assert_eq!(
        RespFrame::expect_length(b"*2\r\n+a\r\n"),
        Err(RespError::NotComplete)
    );
    assert_eq!(RespFrame::expect_length(b"*2\r\n+a\r\n+b\r\n"), Ok(12));
}

#[test]
fn test_expect_length_from_header_alone() {
    // The bulk string's body is not buffered yet; the header names the total.
    assert_eq!(RespFrame::expect_length(b"$5\r\nHel"), Ok(11));
    assert_eq!(RespFrame::expect_length(b"$5\r\n"), Ok(11));
    // The header itself is still incomplete.
    assert_eq!(RespFrame::expect_length(b"$5\r"), Err(RespError::NotComplete));
    // A map entry is a key frame and a value frame.
    assert_eq!(RespFrame::expect_length(b"%1\r\n+a\r\n:+1\r\n"), Ok(13));
    assert_eq!(RespFrame::expect_length(b"$-2\r\n"), Err(RespError::InvalidFrameLength));
}

#[test]
fn test_round_trip_nested() {
    let mut map = RespMap::new();
    map.insert("key".to_string(), RespFrame::Integer(-7));
    let before = RespFrame::Arrays(RespArray::new(vec![
        RespFrame::BulkString(BulkString::new(b"bytes\r\nhere".to_vec())),
        RespFrame::MapFrame(map),
        RespFrame::SetFrame(RespSet::new(vec![RespFrame::Boolean(true)])),
        RespFrame::Null(RespNull),
    ]));
    let encoded = before.encode();
    let mut b = BytesMut::from(encoded.as_slice());
    let decoded = RespFrame::decode(&mut b).unwrap();
    assert_eq!(decoded, before);
    assert!(b.is_empty());
}

#[test]
fn test_every_prefix_of_nested_frame_is_not_complete() {
    let before = RespFrame::Arrays(RespArray::new(vec![
        RespFrame::Integer(12),
        RespFrame::BulkString(BulkString::new(b"xy".to_vec())),
    ]));
    let encoded = before.encode();
    for cut in 0..encoded.len() {
        let mut b = BytesMut::from(&encoded[..cut]);
        assert_eq!(RespFrame::decode(&mut b), Err(RespError::NotComplete));
        assert_eq!(b.as_ref(), &encoded[..cut]);
    }
}
