use my_redis::resp::{RESPParser, RESPSerializer, RESPType};
use my_redis::wire::ProtocolError;

fn parse(src: &str) -> Result<Option<RESPType>, ProtocolError> {
    let data: Vec<u8> = src.as_bytes().to_vec();
    let mut pos: usize = 0;
    RESPParser::parse(&data, &mut pos)
}

fn parse_consumed(src: &str) -> (Result<Option<RESPType>, ProtocolError>, usize) {
    let data: Vec<u8> = src.as_bytes().to_vec();
    let mut pos: usize = 0;
    let r = RESPParser::parse(&data, &mut pos);
    (r, pos)
}

#[test]
fn test_parse_string() {
    assert!(matches!(
        parse("+hello world\r\n"),
        Ok(Some(RESPType::Simple(ref s))) if s == b"hello world"
    ));
    assert!(matches!(parse("+hello\rworld\r\n"), Err(_)));
    assert!(matches!(parse("+hello\nworld\r\n"), Err(_)));
    assert!(matches!(parse("+hello world\r"), Ok(None)));
}

#[test]
fn test_parse_error() {
    assert!(matches!(
        parse("-ERR incorrect type\r\n"),
        Ok(Some(RESPType::Error(ref s))) if s == b"ERR incorrect type"
    ));
    assert!(matches!(parse("-ERR\rincorrect type\r\n"), Err(_)));
    assert!(matches!(parse("-ERR\nincorrect type\r\n"), Err(_)));
    assert!(matches!(parse("-ERR incorrect type\r"), Ok(None)));
}

#[test]
fn test_parse_integer() {
    assert!(matches!(parse(":123\r\n"), Ok(Some(RESPType::Integer(123)))));
    assert!(matches!(parse(":+123\r\n"), Ok(Some(RESPType::Integer(123)))));
    assert!(matches!(parse(":-123\r\n"), Ok(Some(RESPType::Integer(-123)))));
    assert!(matches!(parse(":1a23\r\n"), Err(_)));
}

#[test]
fn test_parse_bulk() {
    assert!(matches!(parse("$-1\r\n"), Ok(Some(RESPType::Null))));
    assert!(matches!(
        parse("$3\r\nget\r\n"),
        Ok(Some(RESPType::Bulk(ref s))) if s == b"get"
    ));
    assert!(matches!(
        parse("$0\r\n\r\n"),
        Ok(Some(RESPType::Bulk(ref s))) if s == b""
    ));
    assert!(matches!(
        parse("$11\r\nhello\nworld\r\n"),
        Ok(Some(RESPType::Bulk(ref s))) if s == b"hello\nworld"
    ));
    assert!(matches!(
        parse("$11\r\nhello\rworld\r\n"),
        Ok(Some(RESPType::Bulk(ref s))) if s == b"hello\rworld"
    ));
    assert!(matches!(
        parse("$12\r\nhello\r\nworld\r\n"),
        Ok(Some(RESPType::Bulk(ref s))) if s == b"hello\r\nworld"
    ));
    // a zero-length bulk still requires its trailing terminator: with
    // only the length line buffered it is incomplete, not yet a frame
    assert!(matches!(parse("$0\r\n"), Ok(None)));
}

#[test]
fn test_parse_array() {
    assert!(matches!(
        parse("*1\r\n$4\r\nping\r\n"),
        Ok(Some(RESPType::Array(ref vec))) if vec.eq(&vec![RESPType::Bulk(b"ping".to_vec())])
    ));
    assert!(matches!(
        parse("*2\r\n$4\r\necho\r\n$11\r\nhello world\r\n"),
        Ok(Some(RESPType::Array(ref vec))) if vec.eq(&vec![
            RESPType::Bulk(b"echo".to_vec()),
            RESPType::Bulk(b"hello world".to_vec())
        ])
    ));
    assert!(matches!(
        parse("*2\r\n$3\r\nget\r\n$3\r\nkey\r\n"),
        Ok(Some(RESPType::Array(ref vec))) if vec.eq(&vec![
            RESPType::Bulk(b"get".to_vec()),
            RESPType::Bulk(b"key".to_vec())
        ])
    ));
    assert!(matches!(parse("*-1\r\n"), Ok(Some(RESPType::Null))));
    assert!(matches!(parse("*2\r\n$3\r\nget\r\n$3\r\nkey"), Ok(None)));
    assert!(matches!(parse("*2\r\n$3\r\nget\r\n$3\r\nkey\r"), Ok(None)));
}

#[test]
fn test_serialize_string() {
    assert!(matches!(
        RESPSerializer::serialize(&RESPType::Simple(b"hello world".to_vec())),
        Ok(ref b) if b == b"+hello world\r\n"
    ));
    assert!(matches!(
        RESPSerializer::serialize(&RESPType::Simple(b"hello\rworld".to_vec())),
        Err(_)
    ));
    assert!(matches!(
        RESPSerializer::serialize(&RESPType::Simple(b"hello\nworld".to_vec())),
        Err(_)
    ));
    assert!(matches!(
        RESPSerializer::serialize(&RESPType::Simple(b"hello\r\nworld".to_vec())),
        Err(_)
    ));
}

#[test]
fn test_serialize_error() {
    assert!(matches!(
        RESPSerializer::serialize(&RESPType::Error(b"ERR something wrong".to_vec())),
        Ok(ref b) if b == b"-ERR something wrong\r\n"
    ));
    assert!(matches!(
        RESPSerializer::serialize(&RESPType::Error(b"ERR\rsomething wrong".to_vec())),
        Err(_)
    ));
    assert!(matches!(
        RESPSerializer::serialize(&RESPType::Error(b"ERR\nsomething wrong".to_vec())),
        Err(_)
    ));
    assert!(matches!(
        RESPSerializer::serialize(&RESPType::Simple(b"ERR\r\nsomething wrong".to_vec())),
        Err(_)
    ));
}

#[test]
fn test_serialize_integer() {
    assert!(matches!(
        RESPSerializer::serialize(&RESPType::Integer(123)),
        Ok(ref b) if b == b":123\r\n"
    ));
    assert!(matches!(
        RESPSerializer::serialize(&RESPType::Integer(-123)),
        Ok(ref b) if b == b":-123\r\n"
    ));
}

#[test]
fn test_serialize_bulk() {
    assert!(matches!(
        RESPSerializer::serialize(&RESPType::Bulk(b"this is a bulk message".to_vec())),
        Ok(ref b) if b == b"$22\r\nthis is a bulk message\r\n"
    ));
    assert!(matches!(
        RESPSerializer::serialize(&RESPType::Bulk(b"this is a bulk message\r with a CR".to_vec())),
        Ok(ref b) if b == b"$33\r\nthis is a bulk message\r with a CR\r\n"
    ));
    assert!(matches!(
        RESPSerializer::serialize(&RESPType::Bulk(b"this is a bulk message\n with a LF".to_vec())),
        Ok(ref b) if b == b"$33\r\nthis is a bulk message\n with a LF\r\n"
    ));
    assert!(matches!(
        RESPSerializer::serialize(&RESPType::Bulk(
            b"this is a bulk message\r\n with a CRLF".to_vec()
        )),
        Ok(ref b) if b == b"$36\r\nthis is a bulk message\r\n with a CRLF\r\n"
    ));
}

#[test]
fn test_serialize_array() {
    assert!(matches!(
        RESPSerializer::serialize(&RESPType::Array(vec![
            RESPType::Simple(b"hello world".to_vec()),
            RESPType::Error(b"ERR something wrong".to_vec()),
            RESPType::Integer(-123),
            RESPType::Bulk(b"this is a bulk message\r\n with a CRLF".to_vec())
        ])),
        Ok(ref b) if b == b"*4\r\n+hello world\r\n-ERR something wrong\r\n:-123\r\n$36\r\nthis is a bulk message\r\n with a CRLF\r\n"
    ));
    assert!(matches!(
        RESPSerializer::serialize(&RESPType::Array(vec![
            RESPType::Simple(b"hello\rworld".to_vec()),
            RESPType::Error(b"ERR something wrong".to_vec()),
            RESPType::Integer(-123),
            RESPType::Bulk(b"this is a bulk message\r\n with a CRLF".to_vec())
        ])),
        Err(_)
    ));
    assert!(matches!(
        RESPSerializer::serialize(&RESPType::Array(vec![
            RESPType::Simple(b"hello world".to_vec()),
            RESPType::Error(b"ERR\nsomething wrong".to_vec()),
            RESPType::Integer(-123),
            RESPType::Bulk(b"this is a bulk message\r\n with a CRLF".to_vec())
        ])),
        Err(_)
    ));
}

#[test]
fn test_serialize_null() {
    assert!(matches!(
        RESPSerializer::serialize(&RESPType::Null),
        Ok(ref b) if b == b"$-1\r\n"
    ));
}

#[test]
fn test_roundtrip_consumes_exactly() {
    let frames = vec![
        RESPType::Simple(b"OK".to_vec()),
        RESPType::Error(b"ERR bad".to_vec()),
        RESPType::Integer(0),
        RESPType::Integer(i64::MAX),
        RESPType::Bulk(b"value".to_vec()),
        RESPType::Bulk(Vec::new()),
        RESPType::Null,
        RESPType::Array(vec![
            RESPType::Bulk(b"set".to_vec()),
            RESPType::Simple(b"k".to_vec()),
            RESPType::Integer(-7),
            RESPType::Array(vec![RESPType::Null]),
        ]),
    ];
    for f in frames {
        let bytes = RESPSerializer::serialize(&f).unwrap();
        let mut pos: usize = 0;
        let back = RESPParser::parse(&bytes, &mut pos).unwrap().unwrap();
        assert_eq!(back, f);
        assert_eq!(pos, bytes.len());
    }
}

#[test]
fn test_integer_min_roundtrip() {
    let bytes = RESPSerializer::serialize(&RESPType::Integer(i64::MIN)).unwrap();
    assert_eq!(bytes, b":-9223372036854775808\r\n".to_vec());
    let mut pos: usize = 0;
    let back = RESPParser::parse(&bytes, &mut pos).unwrap().unwrap();
    assert_eq!(back, RESPType::Integer(i64::MIN));
    assert_eq!(pos, bytes.len());
}

#[test]
fn test_null_distinction() {
    assert!(matches!(parse("$-1\r\n"), Ok(Some(RESPType::Null))));
    assert!(matches!(
        parse("$0\r\n\r\n"),
        Ok(Some(RESPType::Bulk(ref s))) if s.is_empty()
    ));
    let null_bytes = RESPSerializer::serialize(&RESPType::Null).unwrap();
    assert_eq!(null_bytes, b"$-1\r\n".to_vec());
    let empty_bytes = RESPSerializer::serialize(&RESPType::Bulk(Vec::new())).unwrap();
    assert_eq!(empty_bytes, b"$0\r\n\r\n".to_vec());
}

#[test]
fn test_binary_safety() {
    let payload = b"hello\r\nworld".to_vec();
    assert_eq!(payload.len(), 12);
    let bytes = RESPSerializer::serialize(&RESPType::Bulk(payload.clone())).unwrap();
    assert_eq!(bytes, b"$12\r\nhello\r\nworld\r\n".to_vec());
    let (r, consumed) = parse_consumed("$12\r\nhello\r\nworld\r\n");
    assert!(matches!(r, Ok(Some(RESPType::Bulk(ref s))) if *s == payload));
    assert_eq!(consumed, bytes.len());
}

#[test]
fn test_parse_error_kinds() {
    assert!(matches!(parse("?what\r\n"), Err(ProtocolError::UnknownType)));
    assert!(matches!(
        parse("+hello\rworld\r\n"),
        Err(ProtocolError::TerminatorInSimple)
    ));
    assert!(matches!(parse(":1a23\r\n"), Err(ProtocolError::BadDigit)));
    assert!(matches!(parse("$abc\r\nxyz\r\n"), Err(ProtocolError::BadLength)));
    assert!(matches!(
        parse("$99999999999999999999999999\r\nx\r\n"),
        Err(ProtocolError::BadLength)
    ));
    assert!(matches!(parse("$3\r\ngetXY"), Err(ProtocolError::BadBulkEnd)));
}

#[test]
fn test_parser_helpers() {
    let data = b"+ok\r\n".to_vec();
    assert_eq!(RESPParser::get_u8(&data, 0), Some(b'+'));
    assert_eq!(RESPParser::get_u8(&data, 5), None);
    let mut pos: usize = 1;
    assert!(matches!(
        RESPParser::parse_simple(&data, &mut pos),
        Ok(Some(ref v)) if v == b"ok"
    ));
    assert_eq!(pos, 5);
    let idata = b":-42\r\n".to_vec();
    let mut ipos: usize = 1;
    assert!(matches!(
        RESPParser::parse_integer(&idata, &mut ipos),
        Ok(Some(-42))
    ));
    assert_eq!(ipos, 6);
    assert!(matches!(
        RESPSerializer::serialize_simple(&b"fine".to_vec()),
        Ok(ref v) if v == b"fine\r\n"
    ));
    assert!(matches!(
        RESPSerializer::serialize_simple(&b"not\rfine".to_vec()),
        Err(_)
    ));
}

#[test]
fn test_integer_zero_and_sign_only() {
    let bytes = RESPSerializer::serialize(&RESPType::Integer(0)).unwrap();
    assert_eq!(bytes, b":0\r\n".to_vec());
    assert!(matches!(parse(":0\r\n"), Ok(Some(RESPType::Integer(0)))));
    // a bare sign with no digits folds to zero
    assert!(matches!(parse(":+\r\n"), Ok(Some(RESPType::Integer(0)))));
    assert!(matches!(parse(":-\r\n"), Ok(Some(RESPType::Integer(0)))));
    // an empty integer field is an error
    assert!(matches!(parse(":\r\n"), Err(ProtocolError::BadDigit)));
}

#[test]
fn test_nested_array_roundtrip() {
    let frame = RESPType::Array(vec![
        RESPType::Array(vec![RESPType::Integer(1), RESPType::Integer(2)]),
        RESPType::Bulk(b"x".to_vec()),
    ]);
    let bytes = RESPSerializer::serialize(&frame).unwrap();
    assert_eq!(bytes, b"*2\r\n*2\r\n:1\r\n:2\r\n$1\r\nx\r\n".to_vec());
    let mut pos: usize = 0;
    let back = RESPParser::parse(&bytes, &mut pos).unwrap().unwrap();
    assert_eq!(back, frame);
    assert_eq!(pos, bytes.len());
}
