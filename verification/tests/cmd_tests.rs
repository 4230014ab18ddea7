//! Command parsing and execution against the store.
use bytes::BytesMut;
use resp_kv::{
    Backend, BulkString, Command, CommandError, RespArray, RespEncoder, RespFrame, RespNull, SAdd,
    SIsMember,
};

fn decode_array(bytes: &[u8]) -> RespArray {
    let mut buf = BytesMut::new();
    buf.extend_from_slice(bytes);
    RespArray::decode(&mut buf).unwrap()
}

fn run(bytes: &[u8], backend: &mut Backend) -> RespFrame {
    let cmd = Command::parse_array(decode_array(bytes)).unwrap();
    cmd.execute(backend)
}

#[test]
fn test_sadd_from_resp_array2() {
    let frame = decode_array(b"*3\r\n$4\r\nSADD\r\n$5\r\nmyset\r\n$5\r\nHello\r\n");
    let result: SAdd = SAdd::parse(frame).unwrap();
    assert_eq!(result.key, "myset");
    assert_eq!(result.members.len(), 1);
    assert_eq!(result.members[0], "Hello");
}

#[test]
fn test_sadd_from_resp_array3() {
    let frame = decode_array(b"*4\r\n$4\r\nSADD\r\n$5\r\nmyset\r\n$5\r\nHello\r\n$5\r\nWorld\r\n");
    let result: SAdd = SAdd::parse(frame).unwrap();
    assert_eq!(result.key, "myset");
    assert_eq!(result.members.len(), 2);
    assert_eq!(result.members[0], "Hello");
    assert_eq!(result.members[1], "World");
}

#[test]
fn test_sismember_from_resp() {
    let frame = decode_array(b"*3\r\n$9\r\nSISMEMBER\r\n$5\r\nmyset\r\n$3\r\none\r\n");
    let result: SIsMember = SIsMember::parse(frame).unwrap();
    assert_eq!(result.key, "myset");
    assert_eq!(result.member, "one");
}

#[test]
fn test_lowercase_get() {
    let frame = decode_array(b"*2\r\n$3\r\nget\r\n$5\r\nhello\r\n");
    let cmd = Command::parse_array(frame).unwrap();
    let mut backend = Backend::new();
    let ret = cmd.execute(&mut backend);
    assert_eq!(ret, RespFrame::Null(RespNull));
}

#[test]
fn test_uppercase_get() {
    let frame = decode_array(b"*2\r\n$3\r\nGET\r\n$5\r\nhello\r\n");
    let cmd = Command::parse_array(frame).unwrap();
    let mut backend = Backend::new();
    let ret = cmd.execute(&mut backend);
    assert_eq!(ret, RespFrame::Null(RespNull));
}

#[test]
fn test_sadd_without_members_is_invalid() {
    let frame = decode_array(b"*2\r\n$4\r\nSADD\r\n$5\r\nmyset\r\n");
    match SAdd::parse(frame) {
        Err(CommandError::InvalidCommand(_)) => {},
        other => panic!("expected InvalidCommand, got {:?}", other),
    }
}

#[test]
fn test_sadd_idempotence_signaling() {
    let mut backend = Backend::new();
    let first = run(b"*3\r\n$4\r\nSADD\r\n$5\r\nmyset\r\n$5\r\nHello\r\n", &mut backend);
    assert_eq!(first.encode(), b"*1\r\n:1\r\n");
    let second = run(b"*3\r\n$4\r\nSADD\r\n$5\r\nmyset\r\n$5\r\nHello\r\n", &mut backend);
    assert_eq!(second.encode(), b"*1\r\n:0\r\n");
}

#[test]
fn test_sadd_duplicates_in_one_call() {
    let mut backend = Backend::new();
    let ret = run(
        b"*4\r\n$4\r\nSADD\r\n$5\r\nmyset\r\n$5\r\nHello\r\n$5\r\nHello\r\n",
        &mut backend,
    );
    assert_eq!(ret.encode(), b"*2\r\n:1\r\n:0\r\n");
}

#[test]
fn test_sismember_on_never_created_key() {
    let mut backend = Backend::new();
    let ret = run(b"*3\r\n$9\r\nSISMEMBER\r\n$5\r\nmyset\r\n$3\r\none\r\n", &mut backend);
    assert_eq!(ret, RespFrame::Integer(0));
}

#[test]
fn test_sadd_then_sismember() {
    let mut backend = Backend::new();
    run(b"*3\r\n$4\r\nSADD\r\n$5\r\nmyset\r\n$3\r\none\r\n", &mut backend);
    let yes = run(b"*3\r\n$9\r\nSISMEMBER\r\n$5\r\nmyset\r\n$3\r\none\r\n", &mut backend);
    let no = run(b"*3\r\n$9\r\nSISMEMBER\r\n$5\r\nmyset\r\n$3\r\ntwo\r\n", &mut backend);
    assert_eq!(yes, RespFrame::Integer(1));
    assert_eq!(no, RespFrame::Integer(0));
}

#[test]
fn test_set_then_get() {
    let mut backend = Backend::new();
    let ok = run(b"*3\r\n$3\r\nSET\r\n$5\r\nhello\r\n$5\r\nworld\r\n", &mut backend);
    assert_eq!(ok.encode(), b"+OK\r\n");
    let got = run(b"*2\r\n$3\r\nGET\r\n$5\r\nhello\r\n", &mut backend);
    assert_eq!(got.encode(), b"$5\r\nworld\r\n");
}

#[test]
fn test_echo() {
    let mut backend = Backend::new();
    let ret = run(b"*2\r\n$4\r\nECHO\r\n$5\r\nhello\r\n", &mut backend);
    assert_eq!(ret, RespFrame::BulkString(BulkString::new("hello".to_string())));
}

#[test]
fn test_hset_hget() {
    let mut backend = Backend::new();
    let ok = run(
        b"*4\r\n$4\r\nHSET\r\n$6\r\nmyhash\r\n$6\r\nfield1\r\n$5\r\nHello\r\n",
        &mut backend,
    );
    assert_eq!(ok.encode(), b"+OK\r\n");
    let got = run(b"*3\r\n$4\r\nHGET\r\n$6\r\nmyhash\r\n$6\r\nfield1\r\n", &mut backend);
    assert_eq!(got.encode(), b"$5\r\nHello\r\n");
    let missing = run(b"*3\r\n$4\r\nHGET\r\n$6\r\nmyhash\r\n$7\r\nnofield\r\n", &mut backend);
    assert_eq!(missing, RespFrame::Null(RespNull));
}

#[test]
fn test_hmget_preserves_order_and_fills_null() {
    let mut backend = Backend::new();
    run(
        b"*4\r\n$4\r\nHSET\r\n$6\r\nmyhash\r\n$6\r\nfield1\r\n$6\r\nvalue1\r\n",
        &mut backend,
    );
    run(
        b"*4\r\n$4\r\nHSET\r\n$6\r\nmyhash\r\n$6\r\nfield2\r\n$6\r\nvalue2\r\n",
        &mut backend,
    );
    let ret = run(
        b"*5\r\n$5\r\nHMGET\r\n$6\r\nmyhash\r\n$6\r\nfield1\r\n$6\r\nfield2\r\n$7\r\nnofield\r\n",
        &mut backend,
    );
    assert_eq!(
        ret.encode(),
        b"*3\r\n$6\r\nvalue1\r\n$6\r\nvalue2\r\n_\r\n".to_vec()
    );
}

#[test]
fn test_hgetall_sorted_map() {
    let mut backend = Backend::new();
    run(b"*4\r\n$4\r\nHSET\r\n$1\r\nh\r\n$1\r\nb\r\n$1\r\n2\r\n", &mut backend);
    run(b"*4\r\n$4\r\nHSET\r\n$1\r\nh\r\n$1\r\na\r\n$1\r\n1\r\n", &mut backend);
    let ret = run(b"*2\r\n$7\r\nHGETALL\r\n$1\r\nh\r\n", &mut backend);
    assert_eq!(
        String::from_utf8_lossy(&ret.encode()),
        "%2\r\n+a\r\n$1\r\n1\r\n+b\r\n$1\r\n2\r\n"
    );
}

#[test]
fn test_hgetall_absent_key_is_empty_map() {
    let mut backend = Backend::new();
    let ret = run(b"*2\r\n$7\r\nHGETALL\r\n$4\r\nnone\r\n", &mut backend);
    assert_eq!(ret.encode(), b"%0\r\n");
}

#[test]
fn test_unknown_command_replies_ok() {
    let mut backend = Backend::new();
    let ret = run(b"*2\r\n$6\r\nFOOBAR\r\n$3\r\nabc\r\n", &mut backend);
    assert_eq!(ret.encode(), b"+OK\r\n");
    // and it left the store untouched
    let got = run(b"*2\r\n$3\r\nGET\r\n$3\r\nabc\r\n", &mut backend);
    assert_eq!(got, RespFrame::Null(RespNull));
}

#[test]
fn test_command_must_be_array() {
    let frame = RespFrame::Integer(5);
    match Command::parse(frame) {
        Err(CommandError::InvalidCommand(_)) => {},
        other => panic!("expected InvalidCommand, got {:?}", other),
    }
}

#[test]
fn test_command_first_element_must_be_bulk() {
    let frame = decode_array(b"*2\r\n:1\r\n$5\r\nhello\r\n");
    match Command::parse_array(frame) {
        Err(CommandError::InvalidCommand(_)) => {},
        other => panic!("expected InvalidCommand, got {:?}", other),
    }
}

#[test]
fn test_get_arity_error() {
    // a wrong argument count answers InvalidCommand, naming the counts
    let frame = decode_array(b"*3\r\n$3\r\nGET\r\n$1\r\na\r\n$1\r\nb\r\n");
    match Command::parse_array(frame) {
        Err(CommandError::InvalidCommand(m)) => {
            assert!(m.contains("1") && m.contains("2"));
        },
        other => panic!("expected InvalidCommand, got {:?}", other),
    }
}

#[test]
fn test_wrong_name_token_error() {
    // a right count with a mismatched fixed-name token answers InvalidArgument
    let frame = decode_array(b"*3\r\n$4\r\nSADD\r\n$1\r\nk\r\n$1\r\nm\r\n");
    match SIsMember::parse(frame) {
        Err(CommandError::InvalidArgument(_)) => {},
        other => panic!("expected InvalidArgument, got {:?}", other),
    }
}

#[test]
fn test_invalid_utf8_key_error() {
    let frame = decode_array(b"*2\r\n$3\r\nGET\r\n$2\r\n\xff\xfe\r\n");
    match Command::parse_array(frame) {
        Err(CommandError::Utf8Error) => {},
        other => panic!("expected Utf8Error, got {:?}", other),
    }
}

#[test]
fn test_non_bulk_argument_error() {
    let frame = decode_array(b"*2\r\n$3\r\nGET\r\n:5\r\n");
    match Command::parse_array(frame) {
        Err(CommandError::InvalidArgument(_)) => {},
        other => panic!("expected InvalidArgument, got {:?}", other),
    }
}

#[test]
fn test_get_on_wrong_typed_key_reads_as_absent() {
    // the documented policy: a key holding a set reads as absent for GET
    let mut backend = Backend::new();
    run(b"*3\r\n$4\r\nSADD\r\n$1\r\nk\r\n$1\r\nm\r\n", &mut backend);
    let ret = run(b"*2\r\n$3\r\nGET\r\n$1\r\nk\r\n", &mut backend);
    assert_eq!(ret, RespFrame::Null(RespNull));
}

#[test]
fn test_set_replaces_value() {
    let mut backend = Backend::new();
    run(b"*3\r\n$3\r\nSET\r\n$1\r\nk\r\n$1\r\na\r\n", &mut backend);
    run(b"*3\r\n$3\r\nSET\r\n$1\r\nk\r\n$1\r\nb\r\n", &mut backend);
    let got = run(b"*2\r\n$3\r\nGET\r\n$1\r\nk\r\n", &mut backend);
    assert_eq!(got.encode(), b"$1\r\nb\r\n");
}

#[test]
fn test_set_accepts_any_frame_value() {
    let mut backend = Backend::new();
    run(b"*3\r\n$3\r\nSET\r\n$1\r\nk\r\n:42\r\n", &mut backend);
    let got = run(b"*2\r\n$3\r\nGET\r\n$1\r\nk\r\n", &mut backend);
    assert_eq!(got, RespFrame::Integer(42));
}
