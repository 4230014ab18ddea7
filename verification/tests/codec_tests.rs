//! Byte-exact encoder checks and decoder round trips.
use bytes::BytesMut;
use resp_kv::{
    BulkString, NullBulkString, RespArray, RespDouble, RespEncoder, RespError, RespFrame, RespMap,
    RespNull, RespNullArray, RespSet, SimpleError, SimpleString,
};

/// The canonical double text: plain decimal in the middle range, scientific
/// notation with an explicit mantissa sign outside it.
fn canonical_double_text(x: f64) -> String {
    if x == 0.0 || (1e-8 <= x.abs() && x.abs() < 1e8) {
        format!("{}", x)
    } else {
        format!("{:+e}", x)
    }
}

fn double_frame(x: f64) -> RespFrame {
    RespFrame::Double(RespDouble::new(canonical_double_text(x)).unwrap())
}

#[test]
fn test_encode_simple_string() {
    let frame: RespFrame = RespFrame::SimpleString(SimpleString::new("OK".to_string()));
    assert_eq!(frame.encode(), b"+OK\r\n");
}

#[test]
fn encoder_test_encode_simple_error() {
    let frame: RespFrame = RespFrame::Error(SimpleError::new("Error message".to_string()));
    assert_eq!(frame.encode(), b"-Error message\r\n")
}

#[test]
fn test_encode_positive_integer() {
    let frame: RespFrame = RespFrame::Integer(123);
    assert_eq!(frame.encode(), b":123\r\n");
}

#[test]
fn test_encode_negative_integer() {
    let frame: RespFrame = RespFrame::Integer(-123);
    assert_eq!(frame.encode(), b":-123\r\n");
}

#[test]
fn test_encode_bulk_string() {
    let frame: RespFrame = RespFrame::BulkString(BulkString::new("hello".to_string()));
    assert_eq!(frame.encode(), b"$5\r\nhello\r\n".to_vec());
}

#[test]
fn test_encode_null_bulk_string() {
    let frame: RespFrame = RespFrame::NullBulkString(NullBulkString);
    assert_eq!(frame.encode(), b"$-1\r\n".to_vec());
}

#[test]
fn test_encode_array2() {
    let frame: RespFrame = RespFrame::Array(RespArray::new(vec![
        RespFrame::BulkString(BulkString::new("get".to_string())),
        RespFrame::BulkString(BulkString::new("hello".to_string())),
    ]));
    assert_eq!(frame.encode(), b"*2\r\n$3\r\nget\r\n$5\r\nhello\r\n")
}

#[test]
fn test_encode_array3() {
    let frame: RespFrame = RespFrame::Array(RespArray::new(vec![
        RespFrame::BulkString(BulkString::new("set".to_string())),
        RespFrame::BulkString(BulkString::new("hello".to_string())),
        RespFrame::BulkString(BulkString::new("world".to_string())),
    ]));
    assert_eq!(
        &frame.encode(),
        b"*3\r\n$3\r\nset\r\n$5\r\nhello\r\n$5\r\nworld\r\n"
    );
}

#[test]
fn test_encode_null_array_encode() {
    let frame: RespFrame = RespFrame::NullArray(RespNullArray);
    assert_eq!(frame.encode(), b"*-1\r\n");
}

#[test]
fn test_encode_null_encode() {
    let frame: RespFrame = RespFrame::Null(RespNull);
    assert_eq!(frame.encode(), b"_\r\n");
}

#[test]
fn test_encode_true_boolean() {
    let frame: RespFrame = RespFrame::Boolean(true);
    assert_eq!(frame.encode(), b"#t\r\n");
}

#[test]
fn test_encode_false_boolean() {
    let frame: RespFrame = RespFrame::Boolean(false);
    assert_eq!(frame.encode(), b"#f\r\n");
}

#[test]
fn test_encode_positive_double() {
    let frame = double_frame(123.456);
    assert_eq!(frame.encode(), b",123.456\r\n");

    let frame = double_frame(1.23456e+8);
    assert_eq!(frame.encode(), b",+1.23456e8\r\n");
}

#[test]
fn test_encode_negative_double() {
    let frame = double_frame(-123.456);
    assert_eq!(frame.encode(), b",-123.456\r\n");

    let frame = double_frame(-1.23456e-9);
    assert_eq!(&frame.encode(), b",-1.23456e-9\r\n");
}

#[test]
fn test_encode_map() {
    let mut map = RespMap::new();
    map.insert(
        "hello".to_string(),
        RespFrame::BulkString(BulkString::new("world".to_string())),
    );
    map.insert("foo".to_string(), double_frame(-123456.789));

    let frame: RespFrame = RespFrame::Mapping(map);
    assert_eq!(
        String::from_utf8_lossy(&frame.encode()),
        "%2\r\n+foo\r\n,-123456.789\r\n+hello\r\n$5\r\nworld\r\n"
    );
}

#[test]
fn test_encode_set() {
    let frame: RespFrame = RespFrame::Collection(RespSet::new(vec![
        RespFrame::Array(RespArray::new(vec![
            RespFrame::Integer(1234),
            RespFrame::Boolean(true),
        ])),
        RespFrame::BulkString(BulkString::new("world".to_string())),
    ]));
    assert_eq!(frame.encode(), b"~2\r\n*2\r\n:1234\r\n#t\r\n$5\r\nworld\r\n");
}

#[test]
fn simple_error_test_encode_simple_error() {
    let frame: RespFrame = RespFrame::Error(SimpleError::new("Error message".to_string()));
    assert_eq!(frame.encode(), b"-Error message\r\n")
}

#[test]
fn test_simple_error_decode() {
    let mut buf = BytesMut::new();
    buf.extend_from_slice(b"-Error message\r\n");

    let frame = SimpleError::decode(&mut buf).unwrap();
    assert_eq!(frame, SimpleError::new("Error message".to_string()));
}

fn sample_frames() -> Vec<RespFrame> {
    let mut map = RespMap::new();
    map.insert(
        "hello".to_string(),
        RespFrame::BulkString(BulkString::new("world".to_string())),
    );
    map.insert("foo".to_string(), double_frame(-123456.789));
    vec![
        RespFrame::SimpleString(SimpleString::new("OK".to_string())),
        RespFrame::Error(SimpleError::new("oops".to_string())),
        RespFrame::Integer(-9034),
        RespFrame::BulkString(BulkString::new("hel\r\nlo".to_string())),
        RespFrame::NullBulkString(NullBulkString),
        RespFrame::NullArray(RespNullArray),
        RespFrame::Null(RespNull),
        RespFrame::Boolean(true),
        RespFrame::Boolean(false),
        double_frame(1.25),
        RespFrame::Mapping(map),
        RespFrame::Collection(RespSet::new(vec![
            RespFrame::Integer(7),
            RespFrame::Integer(7),
        ])),
        RespFrame::Array(RespArray::new(vec![
            RespFrame::Array(RespArray::new(vec![])),
            RespFrame::BulkString(BulkString::new("x".to_string())),
            RespFrame::Integer(0),
        ])),
    ]
}

#[test]
fn test_round_trip_every_variant() {
    for frame in sample_frames() {
        let expected = frame.clone();
        let mut buf = BytesMut::new();
        buf.extend_from_slice(&frame.encode());
        let decoded = RespFrame::decode(&mut buf).unwrap();
        assert_eq!(decoded, expected);
        assert_eq!(buf.len(), 0, "a round trip must consume the whole encoding");
    }
}

#[test]
fn test_incomplete_then_complete() {
    for frame in sample_frames() {
        let expected = frame.clone();
        let bytes = frame.encode();
        for cut in 0..bytes.len() {
            let mut buf = BytesMut::new();
            buf.extend_from_slice(&bytes[..cut]);
            assert_eq!(RespFrame::decode(&mut buf), Err(RespError::Incomplete));
            assert_eq!(&buf[..], &bytes[..cut], "an incomplete read must not consume");
            buf.extend_from_slice(&bytes[cut..]);
            assert_eq!(RespFrame::decode(&mut buf).unwrap(), expected);
            assert_eq!(buf.len(), 0);
        }
    }
}

#[test]
fn test_trailing_bytes_left_in_buffer() {
    let mut buf = BytesMut::new();
    buf.extend_from_slice(b":42\r\n+next\r\n");
    assert_eq!(RespFrame::decode(&mut buf).unwrap(), RespFrame::Integer(42));
    assert_eq!(&buf[..], b"+next\r\n");
}

#[test]
fn test_count_field_is_element_count() {
    // two elements of five payload bytes each: the header says 2, not 20
    let frame = RespFrame::Array(RespArray::new(vec![
        RespFrame::BulkString(BulkString::new("aaaaa".to_string())),
        RespFrame::BulkString(BulkString::new("bbbbb".to_string())),
    ]));
    let bytes = frame.encode();
    assert_eq!(&bytes[..4], b"*2\r\n");
}

#[test]
fn test_decode_unknown_marker_malformed() {
    let mut buf = BytesMut::new();
    buf.extend_from_slice(b"?what\r\n");
    assert_eq!(RespFrame::decode(&mut buf), Err(RespError::Malformed));
    assert_eq!(&buf[..], b"?what\r\n");
}

#[test]
fn test_decode_bad_integer_malformed() {
    let mut buf = BytesMut::new();
    buf.extend_from_slice(b":12a\r\n");
    assert_eq!(RespFrame::decode(&mut buf), Err(RespError::Malformed));
}

#[test]
fn test_decode_bad_boolean_malformed() {
    let mut buf = BytesMut::new();
    buf.extend_from_slice(b"#x\r\n");
    assert_eq!(RespFrame::decode(&mut buf), Err(RespError::Malformed));
}

#[test]
fn test_decode_bare_line_feed_malformed() {
    let mut buf = BytesMut::new();
    buf.extend_from_slice(b"+he\nllo\r\n");
    assert_eq!(RespFrame::decode(&mut buf), Err(RespError::Malformed));
}

#[test]
fn test_decode_bad_double_malformed() {
    let mut buf = BytesMut::new();
    buf.extend_from_slice(b",12..5\r\n");
    assert_eq!(RespFrame::decode(&mut buf), Err(RespError::Malformed));
}

#[test]
fn test_decode_integer_overflow_malformed() {
    let mut buf = BytesMut::new();
    buf.extend_from_slice(b":92233720368547758080\r\n");
    assert_eq!(RespFrame::decode(&mut buf), Err(RespError::Malformed));
}

#[test]
fn test_decode_integer_extremes() {
    let mut buf = BytesMut::new();
    buf.extend_from_slice(b":9223372036854775807\r\n:-9223372036854775808\r\n");
    assert_eq!(
        RespFrame::decode(&mut buf).unwrap(),
        RespFrame::Integer(i64::MAX)
    );
    assert_eq!(
        RespFrame::decode(&mut buf).unwrap(),
        RespFrame::Integer(i64::MIN)
    );
}

#[test]
fn test_double_text_grammar() {
    assert!(RespDouble::new("123.456".to_string()).is_some());
    assert!(RespDouble::new("+1.23456e8".to_string()).is_some());
    assert!(RespDouble::new("-1.23456e-9".to_string()).is_some());
    assert!(RespDouble::new("12".to_string()).is_some());
    assert!(RespDouble::new("".to_string()).is_none());
    assert!(RespDouble::new("abc".to_string()).is_none());
    assert!(RespDouble::new("1.".to_string()).is_none());
    assert!(RespDouble::new("1e".to_string()).is_none());
    assert!(RespDouble::new("--1".to_string()).is_none());
}

#[test]
fn test_map_insert_sorts_and_replaces() {
    let mut map = RespMap::new();
    map.insert("b".to_string(), RespFrame::Integer(2));
    map.insert("a".to_string(), RespFrame::Integer(1));
    map.insert("c".to_string(), RespFrame::Integer(3));
    map.insert("b".to_string(), RespFrame::Integer(9));
    let frame = RespFrame::Mapping(map);
    assert_eq!(
        String::from_utf8_lossy(&frame.encode()),
        "%3\r\n+a\r\n:1\r\n+b\r\n:9\r\n+c\r\n:3\r\n"
    );
}
