use resp_server::parser::{parse_message, read_until_end, buffer_to_string, parse_int, lower_bytes, DecodeResult, Value};

fn decoded(buf: &[u8]) -> (Value, usize) {
    match parse_message(buf) {
        DecodeResult::Done(v, n) => (v, n),
        other => panic!("expected a decoded value, got {:?}", other),
    }
}

#[test]
fn round_trip_simple_string() {
    let v = Value::SimpleString(b"OK".to_vec());
    let bytes = v.serialize();
    assert_eq!(bytes, b"+OK\r\n".to_vec());
    let (back, used) = decoded(&bytes);
    assert_eq!(back, Value::SimpleString(b"OK".to_vec()));
    assert_eq!(used, bytes.len());
}

#[test]
fn round_trip_simple_error() {
    let v = Value::SimpleError(b"ERR boom".to_vec());
    let bytes = v.serialize();
    assert_eq!(bytes, b"-ERR boom\r\n".to_vec());
    let (back, used) = decoded(&bytes);
    assert_eq!(back, v);
    assert_eq!(used, bytes.len());
}

#[test]
fn round_trip_bulk_string() {
    let v = Value::BulkString(b"hello".to_vec());
    let bytes = v.serialize();
    assert_eq!(bytes, b"$5\r\nhello\r\n".to_vec());
    let (back, used) = decoded(&bytes);
    assert_eq!(back, v);
    assert_eq!(used, 11);
}

#[test]
fn round_trip_empty_bulk_string() {
    let v = Value::BulkString(Vec::new());
    let bytes = v.serialize();
    assert_eq!(bytes, b"$0\r\n\r\n".to_vec());
    let (back, used) = decoded(&bytes);
    assert_eq!(back, v);
    assert_eq!(used, 6);
}

#[test]
fn round_trip_binary_bulk_string() {
    let v = Value::BulkString(vec![0, 13, 10, 255, 1]);
    let bytes = v.serialize();
    let (back, used) = decoded(&bytes);
    assert_eq!(back, v);
    assert_eq!(used, bytes.len());
}

#[test]
fn round_trip_null_bulk_string() {
    let v = Value::NullBulkString;
    let bytes = v.serialize();
    assert_eq!(bytes, b"$-1\r\n".to_vec());
    let (back, used) = decoded(&bytes);
    assert_eq!(back, Value::NullBulkString);
    assert_eq!(used, 5);
}

#[test]
fn round_trip_integers() {
    for i in [0i64, 7, -1, 42, -42, i64::MAX, i64::MIN] {
        let bytes = Value::Integer(i).serialize();
        let (back, used) = decoded(&bytes);
        assert_eq!(back, Value::Integer(i));
        assert_eq!(used, bytes.len());
    }
    assert_eq!(Value::Integer(-42).serialize(), b":-42\r\n".to_vec());
}

#[test]
fn round_trip_booleans() {
    assert_eq!(Value::Boolean(true).serialize(), b"#t\r\n".to_vec());
    assert_eq!(Value::Boolean(false).serialize(), b"#f\r\n".to_vec());
    let (back, _) = decoded(b"#t\r\n");
    assert_eq!(back, Value::Boolean(true));
    let (back, _) = decoded(b"#f\r\n");
    assert_eq!(back, Value::Boolean(false));
}

#[test]
fn round_trip_null() {
    let bytes = Value::Null.serialize();
    assert_eq!(bytes, b"_\r\n".to_vec());
    let (back, used) = decoded(&bytes);
    assert_eq!(back, Value::Null);
    assert_eq!(used, 3);
}

#[test]
fn round_trip_nested_array() {
    let v = Value::Array(vec![
        Value::BulkString(b"SET".to_vec()),
        Value::Integer(-3),
        Value::Array(vec![Value::SimpleString(b"x".to_vec()), Value::Null]),
        Value::Boolean(false),
    ]);
    let bytes = v.serialize();
    let (back, used) = decoded(&bytes);
    assert_eq!(back, v);
    assert_eq!(used, bytes.len());
}

#[test]
fn round_trip_empty_array() {
    let v = Value::Array(Vec::new());
    let bytes = v.serialize();
    assert_eq!(bytes, b"*0\r\n".to_vec());
    let (back, used) = decoded(&bytes);
    assert_eq!(back, v);
    assert_eq!(used, 4);
}

#[test]
fn incremental_decode_every_split() {
    let full = b"*3\r\n$3\r\nSET\r\n$3\r\nfoo\r\n$3\r\nbar\r\n";
    for cut in 0..full.len() {
        assert_eq!(
            parse_message(&full[..cut]),
            DecodeResult::NeedMore,
            "prefix of {} bytes should ask for more",
            cut
        );
    }
    let (v, used) = decoded(full);
    assert_eq!(used, full.len());
    assert_eq!(
        v,
        Value::Array(vec![
            Value::BulkString(b"SET".to_vec()),
            Value::BulkString(b"foo".to_vec()),
            Value::BulkString(b"bar".to_vec()),
        ])
    );
}

#[test]
fn decode_leaves_trailing_bytes() {
    let buf = b"+PONG\r\n:12\r\n";
    let (v, used) = decoded(buf);
    assert_eq!(v, Value::SimpleString(b"PONG".to_vec()));
    assert_eq!(used, 7);
    let (v2, used2) = decoded(&buf[used..]);
    assert_eq!(v2, Value::Integer(12));
    assert_eq!(used2, 5);
}

#[test]
fn decode_rejects_unknown_prefix() {
    assert_eq!(parse_message(b"?whatever\r\n"), DecodeResult::Malformed);
}

#[test]
fn decode_rejects_bad_numbers() {
    assert_eq!(parse_message(b":twelve\r\n"), DecodeResult::Malformed);
    assert_eq!(parse_message(b":\r\n"), DecodeResult::Malformed);
    assert_eq!(parse_message(b"$-5\r\n"), DecodeResult::Malformed);
    assert_eq!(parse_message(b"*-2\r\n"), DecodeResult::Malformed);
    assert_eq!(parse_message(b":9223372036854775808\r\n"), DecodeResult::Malformed);
}

#[test]
fn decode_rejects_bad_boolean_and_null() {
    assert_eq!(parse_message(b"#x\r\n"), DecodeResult::Malformed);
    assert_eq!(parse_message(b"#tt\r\n"), DecodeResult::Malformed);
    assert_eq!(parse_message(b"_x\r\n"), DecodeResult::Malformed);
}

#[test]
fn decode_rejects_bulk_without_terminator() {
    assert_eq!(parse_message(b"$3\r\nabcXY"), DecodeResult::Malformed);
}

#[test]
fn decode_accepts_minimal_integer_frame() {
    let (v, used) = decoded(b":9223372036854775807\r\n");
    assert_eq!(v, Value::Integer(i64::MAX));
    assert_eq!(used, 22);
}

#[test]
fn unpack_as_string_forms() {
    assert_eq!(
        Value::SimpleString(b"hey".to_vec()).unpack_as_string(),
        Some(b"hey".to_vec())
    );
    assert_eq!(
        Value::BulkString(b"payload".to_vec()).unpack_as_string(),
        Some(b"payload".to_vec())
    );
    assert_eq!(Value::Boolean(true).unpack_as_string(), Some(b"true".to_vec()));
    assert_eq!(Value::Boolean(false).unpack_as_string(), Some(b"false".to_vec()));
    assert_eq!(Value::Integer(-7).unpack_as_string(), Some(b"-7".to_vec()));
    assert_eq!(Value::Null.unpack_as_string(), Some(Vec::new()));
    assert_eq!(Value::NullBulkString.unpack_as_string(), None);
    assert_eq!(Value::SimpleError(b"e".to_vec()).unpack_as_string(), None);
    assert_eq!(Value::Array(Vec::new()).unpack_as_string(), None);
}

#[test]
fn read_until_end_splits_lines() {
    let r = read_until_end(b"hello\r\nrest");
    let (line, used) = r.expect("line expected");
    assert_eq!(line, b"hello");
    assert_eq!(used, 7);
    assert!(read_until_end(b"no terminator").is_none());
    assert!(read_until_end(b"almost\r").is_none());
}

#[test]
fn buffer_to_string_copies() {
    assert_eq!(buffer_to_string(b"abc"), b"abc".to_vec());
    assert_eq!(buffer_to_string(b""), Vec::<u8>::new());
}

#[test]
fn parse_int_reads_decimals() {
    assert_eq!(parse_int(b"0"), Some(0));
    assert_eq!(parse_int(b"123"), Some(123));
    assert_eq!(parse_int(b""), None);
    assert_eq!(parse_int(b"12x"), None);
    assert_eq!(parse_int(b"-5"), None);
    assert_eq!(parse_int(b"99999999999999999999999999"), None);
}

#[test]
fn lower_bytes_folds_ascii() {
    assert_eq!(lower_bytes(b"PiNg"), b"ping".to_vec());
    assert_eq!(lower_bytes(b"xyz-123"), b"xyz-123".to_vec());
}
