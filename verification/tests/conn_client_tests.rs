use my_redis::client::{
    echo_request, get_request, interpret_response, ping_request, set_request, ClientError,
};
use my_redis::connection::RecvBuffer;
use my_redis::resp::{RESPSerializer, RESPType};

#[test]
fn test_partial_delivery() {
    // feeding a frame's bytes one at a time reports incomplete on every
    // strict prefix and yields the frame exactly when the last byte
    // lands
    let frame = RESPType::Array(vec![
        RESPType::Bulk(b"set".to_vec()),
        RESPType::Bulk(b"key".to_vec()),
        RESPType::Bulk(b"hello\r\nworld".to_vec()),
    ]);
    let bytes = RESPSerializer::serialize(&frame).unwrap();
    let mut buffer = RecvBuffer::new();
    for (i, b) in bytes.iter().enumerate() {
        buffer.push_chunk(&vec![*b]);
        if i + 1 < bytes.len() {
            assert!(matches!(buffer.try_next_frame(), Ok(None)));
        }
    }
    let out = buffer.try_next_frame().unwrap().unwrap();
    assert_eq!(out, frame);
    assert!(buffer.is_empty());
}

#[test]
fn test_pipelined_frames_stay_buffered() {
    // two frames arriving in one chunk come out one at a time, in order
    let first = RESPType::Simple(b"OK".to_vec());
    let second = RESPType::Integer(7);
    let mut bytes = RESPSerializer::serialize(&first).unwrap();
    bytes.extend_from_slice(&RESPSerializer::serialize(&second).unwrap());
    let mut buffer = RecvBuffer::new();
    buffer.push_chunk(&bytes);
    assert_eq!(buffer.try_next_frame().unwrap().unwrap(), first);
    assert!(!buffer.is_empty());
    assert_eq!(buffer.try_next_frame().unwrap().unwrap(), second);
    assert!(buffer.is_empty());
    assert!(matches!(buffer.try_next_frame(), Ok(None)));
}

#[test]
fn test_protocol_error_keeps_buffer() {
    let mut buffer = RecvBuffer::new();
    buffer.push_chunk(&b"+bad\rvalue\r\n".to_vec());
    assert!(buffer.try_next_frame().is_err());
    assert!(!buffer.is_empty());
}

#[test]
fn test_request_shapes() {
    let bytes = RESPSerializer::serialize(&ping_request(None)).unwrap();
    assert_eq!(bytes, b"*1\r\n$4\r\nping\r\n".to_vec());
    let bytes = RESPSerializer::serialize(&ping_request(Some(b"hi".to_vec()))).unwrap();
    assert_eq!(bytes, b"*2\r\n$4\r\nping\r\n$2\r\nhi\r\n".to_vec());
    let bytes = RESPSerializer::serialize(&echo_request(None)).unwrap();
    assert_eq!(bytes, b"*2\r\n$4\r\necho\r\n$0\r\n\r\n".to_vec());
    let bytes = RESPSerializer::serialize(&echo_request(Some(b"msg".to_vec()))).unwrap();
    assert_eq!(bytes, b"*2\r\n$4\r\necho\r\n$3\r\nmsg\r\n".to_vec());
    let bytes = RESPSerializer::serialize(&get_request(b"key".to_vec())).unwrap();
    assert_eq!(bytes, b"*2\r\n$3\r\nget\r\n$3\r\nkey\r\n".to_vec());
    let bytes = RESPSerializer::serialize(&set_request(b"key".to_vec(), b"val".to_vec())).unwrap();
    assert_eq!(bytes, b"*3\r\n$3\r\nset\r\n$3\r\nkey\r\n$3\r\nval\r\n".to_vec());
}

#[test]
fn test_interpret_response() {
    assert_eq!(
        interpret_response(Some(RESPType::Simple(b"pong".to_vec()))),
        Ok(b"pong".to_vec())
    );
    assert_eq!(
        interpret_response(Some(RESPType::Bulk(b"value".to_vec()))),
        Ok(b"value".to_vec())
    );
    assert_eq!(
        interpret_response(Some(RESPType::Error(b"ERR nope".to_vec()))),
        Err(ClientError::ServerError(b"ERR nope".to_vec()))
    );
    assert_eq!(
        interpret_response(Some(RESPType::Integer(1))),
        Err(ClientError::UnexpectedType)
    );
    assert_eq!(
        interpret_response(Some(RESPType::Null)),
        Err(ClientError::UnexpectedType)
    );
    assert_eq!(interpret_response(None), Err(ClientError::ConnectionReset));
}
