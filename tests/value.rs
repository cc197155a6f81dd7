use bytes::BytesMut;
use resp::serialize::encode;
use resp::{Error, Value};

#[test]
fn enum_is_null() {
    assert_eq!(Value::BulkString(None).is_null(), true);
    assert_eq!(Value::Array(None).is_null(), true);
    assert_eq!(Value::SimpleString(b"OK".to_vec()).is_null(), false);
    assert_eq!(Value::Error(b"aa".to_vec()).is_null(), false);
    assert_eq!(Value::Integer(123).is_null(), false);
    assert_eq!(Value::BulkString(Some(b"Bulk".to_vec())).is_null(), false);
    assert_eq!(Value::BulkString(Some(vec![79, 75])).is_null(), false);
    assert_eq!(
        Value::Array(Some(vec![Value::BulkString(None), Value::Integer(123)])).is_null(),
        false
    );
}

#[test]
fn enum_is_error() {
    assert_eq!(Value::BulkString(None).is_error(), false);
    assert_eq!(Value::Array(None).is_error(), false);
    assert_eq!(Value::SimpleString(b"OK".to_vec()).is_error(), false);
    assert_eq!(Value::Error(b"".to_vec()).is_error(), true);
    assert_eq!(Value::Error(b"Err".to_vec()).is_error(), true);
    assert_eq!(Value::Integer(123).is_error(), false);
    assert_eq!(Value::BulkString(Some(b"Bulk".to_vec())).is_error(), false);
    assert_eq!(Value::BulkString(Some(vec![79, 75])).is_error(), false);
    assert_eq!(
        Value::Array(Some(vec![Value::BulkString(None), Value::Integer(123)])).is_error(),
        false
    );
}

#[test]
fn enum_encode_null() {
    let val = Value::BulkString(None);
    assert_eq!(val.to_vec().as_slice(), b"$-1\r\n");
}

#[test]
fn enum_encode_nullarray() {
    let val = Value::Array(None);
    assert_eq!(val.to_vec().as_slice(), b"*-1\r\n");
}

#[test]
fn enum_encode_string() {
    let val = Value::SimpleString("OK正".as_bytes().to_vec());
    assert_eq!(val.to_vec().as_slice(), "+OK正\r\n".as_bytes());
}

#[test]
fn enum_encode_error() {
    let val = Value::Error(b"error message".to_vec());
    assert_eq!(val.to_vec().as_slice(), b"-error message\r\n");
}

#[test]
fn enum_encode_integer() {
    let val = Value::Integer(123456789);
    assert_eq!(val.to_vec().as_slice(), b":123456789\r\n");

    let val = Value::Integer(-123456789);
    assert_eq!(val.to_vec().as_slice(), b":-123456789\r\n");
}

#[test]
fn enum_encode_bulk() {
    let val = Value::BulkString(Some("OK正".as_bytes().to_vec()));
    assert_eq!(val.to_vec().as_slice(), "$5\r\nOK正\r\n".as_bytes());
}

#[test]
fn enum_encode_bufbulk() {
    let val = Value::BulkString(Some(vec![79, 75]));
    assert_eq!(&val.to_vec(), b"$2\r\nOK\r\n");
}

#[test]
fn enum_encode_array() {
    let val = Value::Array(Some(Vec::new()));
    assert_eq!(val.to_vec(), b"*0\r\n".to_vec());

    let mut vec: Vec<Value> = Vec::new();
    vec.push(Value::BulkString(None));
    vec.push(Value::Array(None));
    vec.push(Value::SimpleString(b"OK".to_vec()));
    vec.push(Value::Error(b"message".to_vec()));
    vec.push(Value::Integer(123456789));
    vec.push(Value::BulkString(Some(b"Hello".to_vec())));
    let s = vec![79, 75];
    vec.push(Value::BulkString(Some(s)));
    let val = Value::Array(Some(vec));
    assert_eq!(
        val.to_vec(),
        b"*7\r\n$-1\r\n*-1\r\n+OK\r\n-message\r\n:123456789\r\n$5\r\nHello\r\n\
         $2\r\nOK\r\n"
            .to_vec()
    );
}

#[test]
fn encode_integer_extremes() {
    assert_eq!(Value::Integer(0).to_vec(), b":0\r\n".to_vec());
    assert_eq!(Value::Integer(i64::MIN).to_vec(), b":-9223372036854775808\r\n".to_vec());
    assert_eq!(Value::Integer(i64::MAX).to_vec(), b":9223372036854775807\r\n".to_vec());
}

#[test]
fn encode_appends_to_buffer() {
    let mut buf = BytesMut::new();
    let n = encode(&Value::SimpleString(b"OK".to_vec()), &mut buf);
    assert_eq!(n, 5);
    let m = Value::Integer(-7).encode(&mut buf);
    assert_eq!(m, 5);
    assert_eq!(&buf[..], b"+OK\r\n:-7\r\n");
}

fn sample() -> Value {
    let inner = vec![
        Value::BulkString(None),
        Value::Array(None),
        Value::SimpleString(b"OKOK".to_vec()),
        Value::Error(b"ErrErr".to_vec()),
        Value::Integer(1234567890),
        Value::BulkString(Some(b"Bulk String\r\n".to_vec())),
        Value::Array(Some(vec![Value::Integer(-123), Value::BulkString(Some(Vec::new()))])),
    ];
    Value::Array(Some(vec![
        Value::Array(Some(inner)),
        Value::Array(Some(Vec::new())),
        Value::Integer(i64::MIN),
    ]))
}

#[test]
fn serialized_length_matches_encoding() {
    let vals = vec![
        sample(),
        Value::Integer(0),
        Value::Integer(-10),
        Value::BulkString(Some(vec![0u8; 1234])),
        Value::BulkString(None),
        Value::Array(None),
        Value::SimpleString(Vec::new()),
    ];
    for v in vals.iter() {
        assert_eq!(v.to_vec().len(), v.serialize_len());
    }
    assert_eq!(Value::Integer(-10).serialize_len(), 6);
    assert_eq!(Value::BulkString(Some(vec![0u8; 1234])).serialize_len(), 1 + 4 + 2 + 1234 + 2);
}

#[test]
fn round_trip_sample() {
    let v = sample();
    let bytes = v.to_vec();
    let (rest, back) = Value::parse(&bytes).unwrap();
    assert!(rest.is_empty());
    assert_eq!(back, v);
}

#[test]
fn null_and_empty_bulk_differ() {
    let null = Value::BulkString(None);
    let empty = Value::BulkString(Some(Vec::new()));
    assert_ne!(null, empty);
    assert_eq!(null.to_vec(), b"$-1\r\n".to_vec());
    assert_eq!(empty.to_vec(), b"$0\r\n\r\n".to_vec());
    assert_eq!(Value::parse(b"$-1\r\n").unwrap().1, null);
    assert_eq!(Value::parse(b"$0\r\n\r\n").unwrap().1, empty);
}

#[test]
fn truncated_encodings_need_more() {
    let bytes = sample().to_vec();
    for k in 0..bytes.len() {
        assert_eq!(Value::parse(&bytes[..k]), Err(Error::NeedMoreData));
    }
}

#[test]
fn reencode_decoded_nested_value() {
    let mut v = Value::Integer(1);
    for depth in 0..50 {
        v = if depth % 2 == 0 {
            Value::Array(Some(vec![v, Value::BulkString(None)]))
        } else {
            Value::Array(Some(vec![Value::SimpleString(b"x".to_vec()), v]))
        };
    }
    let bytes = v.to_vec();
    let (_, decoded) = Value::parse(&bytes).unwrap();
    let again = decoded.to_vec();
    let (rest, twice) = Value::parse(&again).unwrap();
    assert!(rest.is_empty());
    assert_eq!(twice, decoded);
    assert_eq!(again, bytes);
}
