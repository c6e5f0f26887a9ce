use resp_codec::{
    BulkString, Double, RespArray, RespEncode, RespFrame, RespMap, RespNull, RespNullArray,
    RespNullBulkString, RespSet, SimpleError, SimpleString,
};

#[test]
fn test_simple_string_encode() {
    let frame: RespFrame = RespFrame::SimpleString(SimpleString::new("OK".to_string()));
    assert_eq!(frame.encode(), b"+OK\r\n");
}

#[test]
fn test_simple_error_encode() {
    let frame: RespFrame = RespFrame::Error(SimpleError::new("Error message".to_string()));
    assert_eq!(frame.encode(), b"-Error message\r\n");
}

#[test]
fn test_integer_encode() {
    let frame: RespFrame = RespFrame::Integer(123456789);
    assert_eq!(frame.encode(), b":+123456789\r\n");
    let frame: RespFrame = RespFrame::Integer(-123);
    assert_eq!(frame.encode(), b":-123\r\n");
}

#[test]
fn test_bulk_string_encode() {
    let frame: RespFrame = RespFrame::BulkString(BulkString::new(b"Hello".to_vec()));
    assert_eq!(frame.encode(), b"$5\r\nHello\r\n");
}

#[test]
fn test_null_bulk_string_encode() {
    let frame: RespFrame = RespFrame::NullBulkString(RespNullBulkString);
    assert_eq!(frame.encode(), b"$-1\r\n");
}

#[test]
fn test_array_encode() {
    let frame: RespFrame = RespFrame::Arrays(RespArray::new(vec![
        RespFrame::SimpleString(SimpleString::new("Set".to_string())),
        RespFrame::SimpleString(SimpleString::new("Hello".to_string())),
        RespFrame::SimpleString(SimpleString::new("World".to_string())),
    ]));
    assert_eq!(frame.encode(), b"*3\r\n+Set\r\n+Hello\r\n+World\r\n");
}

#[test]
fn test_null_array_encode() {
    let frame: RespFrame = RespFrame::NullArray(RespNullArray);
    assert_eq!(frame.encode(), b"*-1\r\n");
}

#[test]
fn test_boolean_encode() {
    let frame: RespFrame = RespFrame::Boolean(true);
    assert_eq!(frame.encode(), b"#t\r\n");
    let frame: RespFrame = RespFrame::Boolean(false);
    assert_eq!(frame.encode(), b"#f\r\n");
}

#[test]
fn test_double_encode() {
    let frame: RespFrame = RespFrame::Double(Double::new(b"+1.23456".to_vec()));
    assert_eq!(frame.encode(), b",+1.23456\r\n");
    let frame: RespFrame = RespFrame::Double(Double::new(b"-123.456".to_vec()));
    assert_eq!(frame.encode(), b",-123.456\r\n");
    let frame: RespFrame = RespFrame::Double(Double::new(b"1e8".to_vec()));
    assert_eq!(frame.encode(), b",1e8\r\n");
    let frame: RespFrame = RespFrame::Double(Double::new(b"-1e8".to_vec()));
    assert_eq!(frame.encode(), b",-1e8\r\n");
}

#[test]
fn test_map_encode() {
    let mut frame = RespMap::new();
    frame.insert("a".to_string(), RespFrame::Integer(1));
    frame.insert(
        "b".to_string(),
        RespFrame::Double(Double::new(b"+1234.567".to_vec())),
    );
    assert_eq!(frame.encode(), b"%2\r\n+a\r\n:+1\r\n+b\r\n,+1234.567\r\n");
}

#[test]
fn test_set_encode() {
    let frame = RespSet::new(vec![
        RespFrame::Integer(1),
        RespFrame::Integer(2),
        RespFrame::Integer(3),
    ]);
    assert_eq!(frame.encode(), b"~3\r\n:+1\r\n:+2\r\n:+3\r\n");
}

#[test]
fn test_map_insert_orders_keys() {
    let mut frame = RespMap::new();
    frame.insert(
        "b".to_string(),
        RespFrame::Double(Double::new(b"+1234.567".to_vec())),
    );
    frame.insert("a".to_string(), RespFrame::Integer(1));
    assert_eq!(frame.encode(), b"%2\r\n+a\r\n:+1\r\n+b\r\n,+1234.567\r\n");
}

#[test]
fn test_map_insert_replaces_equal_key() {
    let mut frame = RespMap::new();
    frame.insert("a".to_string(), RespFrame::Integer(1));
    frame.insert("a".to_string(), RespFrame::Integer(2));
    assert_eq!(frame.len(), 1);
    assert_eq!(frame.encode(), b"%1\r\n+a\r\n:+2\r\n");
}

#[test]
fn test_null_encode() {
    let frame: RespFrame = RespFrame::Null(RespNull);
    assert_eq!(frame.encode(), b"_\r\n");
}

#[test]
fn test_integer_extremes_encode() {
    let frame: RespFrame = RespFrame::Integer(0);
    assert_eq!(frame.encode(), b":+0\r\n");
    let frame: RespFrame = RespFrame::Integer(i64::MAX);
    assert_eq!(frame.encode(), b":+9223372036854775807\r\n");
    let frame: RespFrame = RespFrame::Integer(i64::MIN);
    assert_eq!(frame.encode(), b":-9223372036854775808\r\n");
}

#[test]
fn test_empty_aggregates_encode() {
    assert_eq!(RespArray::new(vec![]).encode(), b"*0\r\n");
    assert_eq!(RespSet::new(vec![]).encode(), b"~0\r\n");
    assert_eq!(RespMap::new().encode(), b"%0\r\n");
    assert_eq!(BulkString::new(vec![]).encode(), b"$0\r\n\r\n");
}

#[test]
fn test_bulk_string_binary_encode() {
    let frame = BulkString::new(b"a\r\nb".to_vec());
    assert_eq!(frame.encode(), b"$4\r\na\r\nb\r\n");
}
