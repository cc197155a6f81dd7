use resp::parser::{parse_integer, parse_resp_value};
use resp::{Error, Value};

fn simple(s: &[u8]) -> Value {
    Value::SimpleString(s.to_vec())
}

fn bulk(s: &[u8]) -> Value {
    Value::BulkString(Some(s.to_vec()))
}

#[test]
fn test_simple_string() {
    assert!(parse_resp_value(b"as").is_err());
    assert!(parse_resp_value(b"+as").is_err());
    assert!(parse_resp_value(b"+as\r").is_err());
    assert_eq!(parse_resp_value(b"+\r\n"), Ok((&[][..], simple(b""))));
    assert_eq!(parse_resp_value(b"+as\r\n"), Ok((&[][..], simple(b"as"))));
    assert_eq!(parse_resp_value(b"+as\r\r\n"), Ok((&[][..], simple(b"as\r"))));
    assert_eq!(parse_resp_value(b"++as\r\r\n"), Ok((&[][..], simple(b"+as\r"))));
    assert_eq!(
        parse_resp_value(b"++as\r\nsdf\r\n"),
        Ok((&b"sdf\r\n"[..], simple(b"+as")))
    );
}

#[test]
fn test_parse_integer() {
    assert!(parse_integer((Some(&b"-"[..]), &b"as"[..])).is_err());
    assert_eq!(parse_integer((Some(&b"-"[..]), &b"10"[..])), Ok(-10));
    assert_eq!(parse_integer((Some(&b"-"[..]), &b"0"[..])), Ok(0));
    assert_eq!(parse_integer((None, &b"0"[..])), Ok(0));
    assert_eq!(parse_integer((None, &b"10"[..])), Ok(10));
}

#[test]
fn parse_integer_limits() {
    assert_eq!(
        parse_integer((Some(&b"-"[..]), &b"9223372036854775808"[..])),
        Ok(i64::MIN)
    );
    assert_eq!(parse_integer((None, &b"9223372036854775807"[..])), Ok(i64::MAX));
    assert!(parse_integer((None, &b"9223372036854775808"[..])).is_err());
    assert!(parse_integer((Some(&b"-"[..]), &b""[..])).is_err());
    assert!(parse_integer((None, &b""[..])).is_err());
    assert_eq!(parse_integer((None, &b"+7"[..])), Ok(7));
    assert_eq!(parse_integer((None, &b"007"[..])), Ok(7));
}

#[test]
fn test_integer() {
    assert!(parse_resp_value(b"as").is_err());
    assert!(parse_resp_value(b"+as").is_err());
    assert!(parse_resp_value(b"+as\r").is_err());
    assert!(parse_resp_value(b"+1as\r").is_err());
    assert_eq!(parse_resp_value(b":1\r\n"), Ok((&[][..], Value::Integer(1))));
    assert_eq!(parse_resp_value(b":31\r\n"), Ok((&[][..], Value::Integer(31))));
    assert_eq!(parse_resp_value(b":-31\r\n"), Ok((&[][..], Value::Integer(-31))));
    assert_eq!(parse_resp_value(b":0\r\n"), Ok((&[][..], Value::Integer(0))));
}

#[test]
fn test_bulk_string() {
    assert!(parse_resp_value(b"$0as").is_err());
    assert!(parse_resp_value(b"$0\r\n").is_err());
    assert!(parse_resp_value(b"$1\r\nas\r\n").is_err());
    assert_eq!(parse_resp_value(b"$0\r\n\r\n"), Ok((b"".as_ref(), bulk(b""))));
    assert_eq!(
        parse_resp_value(b"$-1\r\n\r\n"),
        Ok((b"\r\n".as_ref(), Value::BulkString(None)))
    );
    assert_eq!(parse_resp_value(b"$1\r\na\r\na"), Ok((b"a".as_ref(), bulk(b"a"))));
    assert_eq!(parse_resp_value(b"$1\r\na\r\n"), Ok((b"".as_ref(), bulk(b"a"))));
}

#[test]
fn test_array() {
    assert!(parse_resp_value(b"$0as").is_err());
    assert_eq!(
        parse_resp_value(b"*0\r\n"),
        Ok((b"".as_ref(), Value::Array(Some(Vec::new()))))
    );
    assert_eq!(parse_resp_value(b"*-1\r\n"), Ok((b"".as_ref(), Value::Array(None))));
    assert_eq!(
        parse_resp_value(b"*0\r\n\r\n"),
        Ok((b"\r\n".as_ref(), Value::Array(Some(Vec::new()))))
    );
    assert_eq!(
        parse_resp_value(b"*2\r\n$3\r\nfoo\r\n$3\r\nbar\r\n"),
        Ok((b"".as_ref(), Value::Array(Some(vec![bulk(b"foo"), bulk(b"bar")]))))
    );
    assert_eq!(
        parse_resp_value(b"*5\r\n:1\r\n:2\r\n:3\r\n:4\r\n$6\r\nfoobar\r\n"),
        Ok((
            b"".as_ref(),
            Value::Array(Some(vec![
                Value::Integer(1),
                Value::Integer(2),
                Value::Integer(3),
                Value::Integer(4),
                bulk(b"foobar"),
            ]))
        ))
    );
    assert_eq!(
        parse_resp_value(b"*2\r\n*3\r\n:1\r\n:2\r\n:3\r\n*2\r\n+Foo\r\n-Bar\r\n"),
        Ok((
            b"".as_ref(),
            Value::Array(Some(vec![
                Value::Array(Some(vec![
                    Value::Integer(1),
                    Value::Integer(2),
                    Value::Integer(3),
                ])),
                Value::Array(Some(vec![simple(b"Foo"), Value::Error(b"Bar".to_vec())])),
            ]))
        ))
    );
    assert_eq!(
        parse_resp_value(b"*3\r\n$3\r\nfoo\r\n$-1\r\n$3\r\nbar\r\n"),
        Ok((
            b"".as_ref(),
            Value::Array(Some(vec![bulk(b"foo"), Value::BulkString(None), bulk(b"bar")]))
        ))
    );
}

#[test]
fn decode_simple_ok_consumes_all() {
    let (rest, v) = Value::parse(b"+OK\r\n").unwrap();
    assert_eq!(v, simple(b"OK"));
    assert!(rest.is_empty());
}

#[test]
fn decode_null_bulk_consumes_all() {
    let (rest, v) = Value::parse(b"$-1\r\n").unwrap();
    assert_eq!(v, Value::BulkString(None));
    assert!(rest.is_empty());
}

#[test]
fn decode_array_with_null_element() {
    let (rest, v) = Value::parse(b"*3\r\n$3\r\nfoo\r\n$-1\r\n$3\r\nbar\r\n").unwrap();
    assert!(rest.is_empty());
    assert_eq!(
        v,
        Value::Array(Some(vec![bulk(b"foo"), Value::BulkString(None), bulk(b"bar")]))
    );
}

#[test]
fn decode_integers_with_sign_and_leading_zeros() {
    assert_eq!(Value::parse(b":-31\r\n"), Ok((&b""[..], Value::Integer(-31))));
    assert_eq!(Value::parse(b":007\r\n"), Ok((&b""[..], Value::Integer(7))));
}

#[test]
fn decode_nested_arrays_depth_first() {
    let (rest, v) = Value::parse(b"*2\r\n*2\r\n:1\r\n:2\r\n+Foo\r\n").unwrap();
    assert!(rest.is_empty());
    assert_eq!(
        v,
        Value::Array(Some(vec![
            Value::Array(Some(vec![Value::Integer(1), Value::Integer(2)])),
            simple(b"Foo"),
        ]))
    );
}

#[test]
fn decode_unknown_sigil_is_invalid() {
    assert_eq!(Value::parse(b"#1\r\n"), Err(Error::InvalidData));
    assert_eq!(Value::parse(b"#"), Err(Error::InvalidData));
    assert_eq!(Value::parse(b"*1\r\n#\r\n"), Err(Error::InvalidData));
}

#[test]
fn decode_empty_input_needs_more() {
    assert_eq!(Value::parse(b""), Err(Error::NeedMoreData));
}

#[test]
fn decode_number_field_errors() {
    assert_eq!(Value::parse(b":-\r\n"), Err(Error::InvalidData));
    assert_eq!(Value::parse(b":\r\n"), Err(Error::InvalidData));
    assert_eq!(Value::parse(b":+1\r\n"), Err(Error::InvalidData));
    assert_eq!(Value::parse(b":9223372036854775808\r\n"), Err(Error::InvalidData));
    assert_eq!(
        Value::parse(b":-9223372036854775808\r\n"),
        Ok((&b""[..], Value::Integer(i64::MIN)))
    );
    assert_eq!(Value::parse(b":12x\r\n"), Err(Error::InvalidData));
    assert_eq!(Value::parse(b":12\rx"), Err(Error::InvalidData));
    assert_eq!(Value::parse(b"$x\r\n"), Err(Error::InvalidData));
    assert_eq!(Value::parse(b"*1x\r\n"), Err(Error::InvalidData));
}

#[test]
fn decode_partial_inputs_need_more() {
    assert_eq!(Value::parse(b":-"), Err(Error::NeedMoreData));
    assert_eq!(Value::parse(b":12"), Err(Error::NeedMoreData));
    assert_eq!(Value::parse(b":12\r"), Err(Error::NeedMoreData));
    assert_eq!(Value::parse(b"$5\r\nab"), Err(Error::NeedMoreData));
    assert_eq!(Value::parse(b"$2\r\nab\r"), Err(Error::NeedMoreData));
    assert_eq!(Value::parse(b"*2\r\n:1\r\n"), Err(Error::NeedMoreData));
    assert_eq!(Value::parse(b"+a\rb"), Err(Error::NeedMoreData));
}

#[test]
fn decode_bulk_with_wrong_terminator_is_invalid() {
    assert_eq!(Value::parse(b"$2\r\nabXY"), Err(Error::InvalidData));
    assert_eq!(Value::parse(b"$2\r\nab\rX"), Err(Error::InvalidData));
    assert_eq!(Value::parse(b"$-5\r\n"), Ok((&b""[..], Value::BulkString(None))));
}

#[test]
fn decode_keeps_binary_payloads() {
    let (rest, v) = Value::parse(b"$4\r\n\r\n\x00\xff\r\n").unwrap();
    assert!(rest.is_empty());
    assert_eq!(v, bulk(b"\r\n\x00\xff"));
    let (_, v) = Value::parse(b"-a\nb\rc\r\n").unwrap();
    assert_eq!(v, Value::Error(b"a\nb\rc".to_vec()));
}
