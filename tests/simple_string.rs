use bytes::{BufMut, BytesMut};
use simple_redis::{RespDecode, RespEncode, RespError, RespFrame, SimpleString};

#[test]
fn test_simple_string_encode() {
    let frame: RespFrame = SimpleString::new("OK".to_string()).into();

    assert_eq!(frame.encode(), b"+OK\r\n");
}

#[test]
fn test_simple_string_decode() {
    let mut buf = BytesMut::new();
    buf.extend_from_slice(b"+OK\r\n");

    let frame = SimpleString::decode(&mut buf).unwrap();
    assert_eq!(frame, SimpleString::new("OK".to_string()));

    buf.extend_from_slice(b"+hello\r");

    let ret = SimpleString::decode(&mut buf);
    assert_eq!(ret.unwrap_err(), RespError::NotComplete);

    buf.put_bytes(b'\n', 1);
    let frame = SimpleString::decode(&mut buf).unwrap();
    assert_eq!(frame, SimpleString::new("hello".to_string()));
}
