use rusticache::protocol::resp::{get_line, parse_prefix, RespParseError};
use rusticache::Value;

#[test]
fn test_parse_simple_string() {
    let mut buf = b"+OK\r\n".to_vec();
    let val = Value::parse(&mut buf).unwrap();
    assert_eq!(val, Some(Value::SimpleString("OK".to_string())));
    assert!(buf.is_empty());
}

#[test]
fn test_parse_error() {
    let mut buf = b"-ERR unknown command\r\n".to_vec();
    let val = Value::parse(&mut buf).unwrap();
    assert_eq!(val, Some(Value::Error("ERR unknown command".to_string())));
    assert!(buf.is_empty());
}

#[test]
fn test_parse_integer() {
    let mut buf = b":42\r\n".to_vec();
    let val = Value::parse(&mut buf).unwrap();
    assert_eq!(val, Some(Value::Integer(42)));
    assert!(buf.is_empty());
}

#[test]
fn test_parse_bulk_string() {
    let mut buf = b"$5\r\nhello\r\n".to_vec();
    let val = Value::parse(&mut buf).unwrap();
    assert_eq!(val, Some(Value::BulkString(Some(b"hello".to_vec()))));
    assert!(buf.is_empty());

    let mut null_buf = b"$-1\r\n".to_vec();
    let null_val = Value::parse(&mut null_buf).unwrap();
    assert_eq!(null_val, Some(Value::BulkString(None)));
    assert!(null_buf.is_empty());
}

#[test]
fn test_parse_array() {
    let mut buf = b"*2\r\n$4\r\nECHO\r\n$5\r\nworld\r\n".to_vec();
    let val = Value::parse(&mut buf).unwrap();
    assert_eq!(
        val,
        Some(Value::Array(Some(vec![
            Value::BulkString(Some(b"ECHO".to_vec())),
            Value::BulkString(Some(b"world".to_vec())),
        ])))
    );
    assert!(buf.is_empty());
}

#[test]
fn test_partial_parse() {
    let mut buf = b"*2\r\n$4\r\nECHO\r\n$5\r\nwor".to_vec();
    let val = Value::parse(&mut buf).unwrap();
    assert_eq!(val, None);
    // Original buffer must not be prematurely consumed
    assert_eq!(buf.len(), 21);

    // Feed remainder
    buf.extend_from_slice(b"ld\r\n");
    let val2 = Value::parse(&mut buf).unwrap();
    assert!(val2.is_some());
    assert!(buf.is_empty());
}

#[test]
fn test_serialize_and_roundtrip() {
    let original = Value::Array(Some(vec![
        Value::BulkString(Some(b"SET".to_vec())),
        Value::BulkString(Some(b"key".to_vec())),
        Value::BulkString(Some(b"value".to_vec())),
    ]));

    let mut buf = Vec::new();
    original.serialize(&mut buf);

    let parsed = Value::parse(&mut buf).unwrap().unwrap();
    assert_eq!(original, parsed);
    assert!(buf.is_empty());
}

#[test]
fn test_serialize_exact_bytes() {
    let mut buf = Vec::new();
    Value::error("boom").serialize(&mut buf);
    Value::Integer(-7).serialize(&mut buf);
    Value::null_bulk().serialize(&mut buf);
    Value::null_array().serialize(&mut buf);
    Value::ok().serialize(&mut buf);
    assert_eq!(buf, b"-ERR boom\r\n:-7\r\n$-1\r\n*-1\r\n+OK\r\n".to_vec());
}

#[test]
fn test_error_read_back_with_prefix() {
    let mut buf = Vec::new();
    Value::error("boom").serialize(&mut buf);
    assert_eq!(Value::parse(&mut buf).unwrap(), Some(Value::Error("ERR boom".to_string())));
}

#[test]
fn test_parse_errors() {
    let mut bad = b"?x\r\n".to_vec();
    match Value::parse(&mut bad) {
        Err(RespParseError::UnknownPrefix(b'?')) => {}
        other => panic!("unexpected {:?}", other),
    }
    let mut bad_int = b":4x\r\n".to_vec();
    match Value::parse(&mut bad_int) {
        Err(RespParseError::InvalidInteger) => {}
        other => panic!("unexpected {:?}", other),
    }
    let mut bad_len = b"$-5\r\n".to_vec();
    match Value::parse(&mut bad_len) {
        Err(e) => assert_eq!(e.message(), "Protocol error: Negative bulk string length other than -1"),
        other => panic!("unexpected {:?}", other),
    }
    assert_eq!(RespParseError::UnknownPrefix(63).message(), "Unknown RESP prefix byte: 63");
    assert_eq!(RespParseError::InvalidInteger.message(), "Invalid integer in protocol");
}

#[test]
fn test_parse_prefix_reports_length() {
    let data = b"+A\r\n+B\r\n";
    match parse_prefix(data) {
        Ok(Some((v, n))) => {
            assert_eq!(v, Value::SimpleString("A".to_string()));
            assert_eq!(n, 4);
        }
        other => panic!("unexpected {:?}", other),
    }
}

#[test]
fn test_get_line() {
    assert_eq!(get_line(b"ab\r\ncd"), Some((&b"ab"[..], 4)));
    assert_eq!(get_line(b"abc"), None);
    assert_eq!(get_line(b"\r\n"), Some((&b""[..], 2)));
}

#[test]
fn test_as_str_and_as_bytes() {
    assert_eq!(Value::string("hé").as_str(), Some("hé"));
    assert_eq!(Value::BulkString(Some(vec![0xff, 0xfe])).as_str(), None);
    assert_eq!(Value::SimpleString("x".to_string()).as_str(), Some("x"));
    assert_eq!(Value::Integer(1).as_str(), None);
    assert_eq!(Value::string("ab").as_bytes(), Some(&b"ab".to_vec()));
    assert_eq!(Value::SimpleString("x".to_string()).as_bytes(), None);
}

#[test]
fn test_display_forms() {
    assert_eq!(Value::SimpleString("OK".to_string()).display(), "\"OK\"");
    assert_eq!(Value::Error("bad".to_string()).display(), "(error) bad");
    assert_eq!(Value::Integer(-3).display(), "(integer) -3");
    assert_eq!(Value::null_bulk().display(), "(nil)");
    assert_eq!(Value::null_array().display(), "(nil)");
    assert_eq!(Value::string("hi").display(), "\"hi\"");
    assert_eq!(
        Value::BulkString(Some(vec![0xff, b'a', b'\n', b'"'])).display(),
        "b\"\\xffa\\n\\\"\""
    );
    let arr = Value::Array(Some(vec![Value::Integer(1), Value::string("x")]));
    assert_eq!(arr.display(), "[\n  1: (integer) 1\n  2: \"x\"\n]");
}

#[test]
fn test_clone_keeps_value() {
    let v = Value::Array(Some(vec![
        Value::string("a"),
        Value::Array(Some(vec![Value::Integer(5), Value::null_bulk()])),
        Value::Error("e".to_string()),
    ]));
    let c = v.clone();
    assert_eq!(c, v);
}
