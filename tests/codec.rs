use bytes::BytesMut;
use simple_redis::{
    BulkString, RespArray, RespDecode, RespDouble, RespEncode, RespError, RespFrame, RespMap,
    RespNull, RespNullArray, RespNullBulkString, RespSet, SimpleError, SimpleString,
};

fn decode_bytes(b: &[u8]) -> (Result<RespFrame, RespError>, Vec<u8>) {
    let mut buf = BytesMut::new();
    buf.extend_from_slice(b);
    let r = RespFrame::decode(&mut buf);
    (r, buf.to_vec())
}

fn simple(s: &str) -> RespFrame {
    SimpleString::new(s.to_string()).into()
}

fn bulk(b: &[u8]) -> RespFrame {
    BulkString::new(b.to_vec()).into()
}

fn sample_frames() -> Vec<RespFrame> {
    let mut map = RespMap::new();
    map.insert("zeta".to_string(), RespFrame::Integer(-7));
    map.insert("alpha".to_string(), bulk(b"a\r\nb"));
    vec![
        simple("OK"),
        SimpleError::new("ERR bad".to_string()).into(),
        RespFrame::Integer(0),
        RespFrame::Integer(i64::MAX),
        RespFrame::Integer(i64::MIN),
        bulk(b""),
        bulk(b"with\r\ninside"),
        RespNullBulkString.into(),
        RespArray::new(vec![simple("x"), RespArray::new(vec![RespFrame::Integer(3)]).into()]).into(),
        RespArray::new(vec![]).into(),
        RespNullArray.into(),
        RespNull.into(),
        RespFrame::Boolean(true),
        RespFrame::Boolean(false),
        RespDouble::new("-1.5e10".to_string()).into(),
        RespDouble::new("inf".to_string()).into(),
        map.into(),
        RespSet::new(vec![RespFrame::Integer(1), RespFrame::Integer(1)]).into(),
    ]
}

fn same_frames() -> Vec<RespFrame> {
    sample_frames()
}

#[test]
fn encode_simple_string_ok() {
    assert_eq!(simple("OK").encode(), b"+OK\r\n".to_vec());
}

#[test]
fn decode_waits_for_line_end() {
    let (r, rest) = decode_bytes(b"+OK\r");
    assert_eq!(r, Err(RespError::NotComplete));
    assert_eq!(rest, b"+OK\r".to_vec());
    let (r, rest) = decode_bytes(b"+OK\r\n");
    assert_eq!(r, Ok(simple("OK")));
    assert!(rest.is_empty());
}

#[test]
fn decode_null_bulk_string() {
    let (r, rest) = decode_bytes(b"$-1\r\n");
    assert_eq!(r, Ok(RespNullBulkString.into()));
    assert!(rest.is_empty());
}

#[test]
fn decode_null_array() {
    let (r, rest) = decode_bytes(b"*-1\r\n");
    assert_eq!(r, Ok(RespNullArray.into()));
    assert!(rest.is_empty());
}

#[test]
fn decode_array_of_bulk_strings() {
    let (r, rest) = decode_bytes(b"*2\r\n$3\r\nfoo\r\n$3\r\nbar\r\n");
    assert_eq!(r, Ok(RespArray::new(vec![bulk(b"foo"), bulk(b"bar")]).into()));
    assert!(rest.is_empty());
}

#[test]
fn encode_map_sorts_keys() {
    let mut map = RespMap::new();
    map.insert("b".to_string(), RespFrame::Integer(2));
    map.insert("a".to_string(), RespFrame::Integer(1));
    let frame: RespFrame = map.into();
    assert_eq!(frame.encode(), b"%2\r\n+a\r\n:1\r\n+b\r\n:2\r\n".to_vec());
}

#[test]
fn map_insert_order_does_not_matter() {
    let mut m1 = RespMap::new();
    m1.insert("k2".to_string(), RespFrame::Integer(2));
    m1.insert("k1".to_string(), RespFrame::Integer(1));
    m1.insert("k3".to_string(), RespFrame::Integer(3));
    let mut m2 = RespMap::new();
    m2.insert("k3".to_string(), RespFrame::Integer(3));
    m2.insert("k1".to_string(), RespFrame::Integer(1));
    m2.insert("k2".to_string(), RespFrame::Integer(2));
    assert_eq!(m1.encode(), m2.encode());
}

#[test]
fn map_insert_replaces_value() {
    let mut map = RespMap::new();
    map.insert("a".to_string(), RespFrame::Integer(1));
    map.insert("a".to_string(), RespFrame::Integer(9));
    assert_eq!(map.encode(), b"%1\r\n+a\r\n:9\r\n".to_vec());
}

#[test]
fn integer_missing_line_end_is_incomplete() {
    let (r, _) = decode_bytes(b":12");
    assert_eq!(r, Err(RespError::NotComplete));
}

#[test]
fn integer_not_numeric_is_parse_error() {
    let (r, rest) = decode_bytes(b":abc\r\n");
    assert_eq!(r, Err(RespError::ParseIntError(b"abc".to_vec())));
    assert_eq!(rest, b":abc\r\n".to_vec());
}

#[test]
fn round_trip_every_variant() {
    for (f, g) in sample_frames().into_iter().zip(same_frames()) {
        let bytes = f.encode();
        let (r, rest) = decode_bytes(&bytes);
        assert_eq!(r, Ok(g));
        assert!(rest.is_empty());
    }
}

#[test]
fn strict_prefixes_are_incomplete() {
    for f in sample_frames() {
        let bytes = f.encode();
        for j in 1..bytes.len() {
            let (r, rest) = decode_bytes(&bytes[..j]);
            assert_eq!(r, Err(RespError::NotComplete));
            assert_eq!(rest, bytes[..j].to_vec());
        }
    }
}

#[test]
fn decode_leaves_next_frame() {
    let (r, rest) = decode_bytes(b":5\r\n+next\r\n");
    assert_eq!(r, Ok(RespFrame::Integer(5)));
    assert_eq!(rest, b"+next\r\n".to_vec());
}

#[test]
fn bulk_negative_length_rejected() {
    let (r, _) = decode_bytes(b"$-2\r\n");
    assert_eq!(r, Err(RespError::InvalidFrameLength(b"-2".to_vec())));
}

#[test]
fn bulk_non_numeric_length_rejected() {
    let (r, _) = decode_bytes(b"$x1\r\nabc\r\n");
    assert_eq!(r, Err(RespError::InvalidFrameLength(b"x1".to_vec())));
}

#[test]
fn bulk_short_body_is_incomplete() {
    let (r, _) = decode_bytes(b"$5\r\nab");
    assert_eq!(r, Err(RespError::NotComplete));
}

#[test]
fn bulk_missing_trailer_is_invalid() {
    let (r, _) = decode_bytes(b"$3\r\nfooXY");
    assert_eq!(r, Err(RespError::InvalidFrame(b"XY".to_vec())));
}

#[test]
fn unknown_marker_rejected() {
    let (r, _) = decode_bytes(b"?x\r\n");
    assert_eq!(r, Err(RespError::InvalidFrameType(b'?')));
}

#[test]
fn empty_buffer_is_incomplete() {
    let (r, _) = decode_bytes(b"");
    assert_eq!(r, Err(RespError::NotComplete));
}

#[test]
fn bad_boolean_rejected() {
    let (r, _) = decode_bytes(b"#x\r\n");
    assert_eq!(r, Err(RespError::InvalidFrame(b"x".to_vec())));
}

#[test]
fn null_with_payload_rejected() {
    let (r, _) = decode_bytes(b"_x\r\n");
    assert_eq!(r, Err(RespError::InvalidFrame(b"x".to_vec())));
}

#[test]
fn invalid_utf8_rejected() {
    let (r, _) = decode_bytes(b"+\xff\r\n");
    assert_eq!(r, Err(RespError::Utf8Error(vec![0xff])));
}

#[test]
fn bad_double_rejected() {
    let (r, _) = decode_bytes(b",1.2.3\r\n");
    assert_eq!(r, Err(RespError::ParseFloatError(b"1.2.3".to_vec())));
    let (r, _) = decode_bytes(b",e5\r\n");
    assert_eq!(r, Err(RespError::ParseFloatError(b"e5".to_vec())));
}

#[test]
fn doubles_accepted() {
    for t in ["1", "-2.5", ".5", "3.", "1e5", "1E-5", "+NaN", "-Infinity"] {
        let line = format!(",{}\r\n", t);
        let (r, _) = decode_bytes(line.as_bytes());
        assert_eq!(r, Ok(RespDouble::new(t.to_string()).into()));
    }
}

#[test]
fn integer_overflow_rejected() {
    let (r, _) = decode_bytes(b":9223372036854775808\r\n");
    assert_eq!(r, Err(RespError::ParseIntError(b"9223372036854775808".to_vec())));
    let (r, _) = decode_bytes(b":-9223372036854775808\r\n");
    assert_eq!(r, Ok(RespFrame::Integer(i64::MIN)));
}

#[test]
fn map_with_non_text_key_rejected() {
    let (r, _) = decode_bytes(b"%1\r\n:1\r\n:2\r\n");
    assert_eq!(r, Err(RespError::InvalidFrameType(b':')));
}

#[test]
fn map_decode_sorts_and_overwrites() {
    let (r, _) = decode_bytes(b"%3\r\n+b\r\n:2\r\n+a\r\n:1\r\n+b\r\n:3\r\n");
    let mut map = RespMap::new();
    map.insert("a".to_string(), RespFrame::Integer(1));
    map.insert("b".to_string(), RespFrame::Integer(3));
    assert_eq!(r, Ok(map.into()));
}

#[test]
fn set_keeps_duplicates() {
    let (r, _) = decode_bytes(b"~2\r\n:1\r\n:1\r\n");
    assert_eq!(r, Ok(RespSet::new(vec![RespFrame::Integer(1), RespFrame::Integer(1)]).into()));
}

#[test]
fn array_parse_error_waits_for_whole_frame() {
    let (r, _) = decode_bytes(b"*2\r\n:abc\r\n");
    assert_eq!(r, Err(RespError::NotComplete));
}

#[test]
fn expect_length_reports_frame_size() {
    assert_eq!(RespFrame::expect_length(b"*2\r\n$3\r\nfoo\r\n$3\r\nbar\r\nEXTRA"), Ok(22));
    assert_eq!(RespFrame::expect_length(b"$-1\r\n"), Ok(5));
    assert_eq!(RespFrame::expect_length(b"*1\r\n"), Err(RespError::NotComplete));
}

#[test]
fn simple_string_decode_rejects_other_marker() {
    let mut buf = BytesMut::new();
    buf.extend_from_slice(b":1\r\n");
    assert_eq!(SimpleString::decode(&mut buf), Err(RespError::InvalidFrameType(b':')));
    assert_eq!(buf.to_vec(), b":1\r\n".to_vec());
}

#[test]
fn accessors_and_conversions() {
    let s = SimpleString::new("hi".to_string());
    assert_eq!(s.as_str(), "hi");
    assert_eq!(SimpleError::new("bad".to_string()).as_str(), "bad");
    assert_eq!(BulkString::new(b"xy".to_vec()).as_slice(), b"xy");
    let f: RespFrame = b"raw".to_vec().into();
    assert_eq!(f.encode(), b"$3\r\nraw\r\n".to_vec());
    let m: RespMap = Default::default();
    assert_eq!(m.encode(), b"%0\r\n".to_vec());
}

#[test]
fn encode_each_variant_exactly() {
    assert_eq!(RespFrame::Integer(-42).encode(), b":-42\r\n".to_vec());
    assert_eq!(SimpleError::new("ERR x".to_string()).encode(), b"-ERR x\r\n".to_vec());
    assert_eq!(RespFrame::Boolean(true).encode(), b"#t\r\n".to_vec());
    assert_eq!(RespFrame::from(RespNull).encode(), b"_\r\n".to_vec());
    assert_eq!(RespFrame::from(RespNullArray).encode(), b"*-1\r\n".to_vec());
    assert_eq!(RespFrame::from(RespNullBulkString).encode(), b"$-1\r\n".to_vec());
    assert_eq!(RespFrame::from(RespDouble::new("2.5".to_string())).encode(), b",2.5\r\n".to_vec());
    assert_eq!(RespSet::new(vec![RespFrame::Integer(1)]).encode(), b"~1\r\n:1\r\n".to_vec());
}
