use store::codec::{
    decode_command, decode_map, decode_result, decode_value, encode_command, encode_map,
    encode_result, encode_value,
};
use store::command::Command;
use store::connection::{frame, frame_length, Connection, Step};
use store::keyspace::Keyspace;
use store::value::{ResultValue, StringValue, Value, ValueMap};

#[test]
fn integer_bytes() {
    let b = encode_value(&Value::from(7u64));
    assert_eq!(b, vec![1, 0, 0, 0, 7, 0, 0, 0, 0, 0, 0, 0]);
}

#[test]
fn string_bytes() {
    let b = encode_value(&Value::String(StringValue::new("hi")));
    assert_eq!(b, vec![0, 0, 0, 0, 2, 0, 0, 0, 0, 0, 0, 0, b'h', b'i']);
}

#[test]
fn nil_and_map_bytes() {
    assert_eq!(encode_value(&Value::Nil), vec![3, 0, 0, 0]);
    let mut m = ValueMap::new();
    m.insert("x".to_string(), Value::Nil);
    let b = encode_value(&Value::Dict(m));
    assert_eq!(b, vec![2, 0, 0, 0, 1, 0, 0, 0, 0, 0, 0, 0, 1, 0, 0, 0, 0, 0, 0, 0, b'x', 3, 0, 0, 0]);
}

#[test]
fn value_round_trip() {
    let mut inner = ValueMap::new();
    inner.insert("é".to_string(), Value::from(u64::MAX));
    inner.insert("".to_string(), Value::String(StringValue::new("ünï")));
    let mut outer = ValueMap::new();
    outer.insert("in".to_string(), Value::Dict(inner));
    outer.insert("nil".to_string(), Value::Nil);
    let v = Value::Dict(outer);
    let b = encode_value(&v);
    let back = decode_value(&b).expect("decodes");
    assert_eq!(encode_value(&back), b);
    match back {
        Value::Dict(m) => {
            assert_eq!(m.len(), 2);
            match m.get(&"in".to_string()) {
                Some(Value::Dict(i)) => {
                    assert!(matches!(i.get(&"é".to_string()), Some(Value::Integer(n)) if n.value == u64::MAX));
                    assert!(matches!(i.get(&"".to_string()), Some(Value::String(t)) if t.value == "ünï"));
                },
                other => panic!("unexpected {:?}", other),
            }
        },
        other => panic!("unexpected {:?}", other),
    }
}

#[test]
fn decoding_rejects_malformed_bytes() {
    assert!(decode_value(&vec![]).is_none());
    assert!(decode_value(&vec![9, 0, 0, 0]).is_none());
    assert!(decode_value(&vec![1, 0, 0, 0, 7]).is_none());
    assert!(decode_value(&vec![3, 0, 0, 0, 0]).is_none());
    assert!(decode_value(&vec![0, 0, 0, 0, 1, 0, 0, 0, 0, 0, 0, 0, 0xff]).is_none());
    assert!(decode_value(&vec![0, 0, 0, 0, 5, 0, 0, 0, 0, 0, 0, 0, b'a']).is_none());
}

#[test]
fn decoded_string_is_the_encoded_text() {
    let b = vec![0, 0, 0, 0, 3, 0, 0, 0, 0, 0, 0, 0, b'a', b'b', b'c'];
    match decode_value(&b) {
        Some(Value::String(s)) => assert_eq!(s.value, "abc"),
        other => panic!("unexpected {:?}", other),
    }
}

#[test]
fn repeated_keys_in_a_map_keep_the_last() {
    let b = vec![
        2, 0, 0, 0, 2, 0, 0, 0, 0, 0, 0, 0, 1, 0, 0, 0, 0, 0, 0, 0, b'k', 1, 0, 0, 0, 1, 0, 0, 0, 0,
        0, 0, 0, 1, 0, 0, 0, 0, 0, 0, 0, b'k', 1, 0, 0, 0, 2, 0, 0, 0, 0, 0, 0, 0,
    ];
    match decode_value(&b) {
        Some(Value::Dict(m)) => {
            assert_eq!(m.len(), 1);
            assert!(matches!(m.get(&"k".to_string()), Some(Value::Integer(n)) if n.value == 2));
        },
        other => panic!("unexpected {:?}", other),
    }
}

#[test]
fn command_round_trip() {
    let c = Command::MapSet("m".to_string(), "k".to_string(), Value::from(5u64));
    let b = encode_command(&c);
    assert_eq!(&b[0..4], &[4, 0, 0, 0]);
    match decode_command(&b) {
        Some(Command::MapSet(m, k, Value::Integer(n))) => {
            assert_eq!(m, "m");
            assert_eq!(k, "k");
            assert_eq!(n.value, 5);
        },
        other => panic!("unexpected {:?}", other),
    }
    assert!(matches!(decode_command(&encode_command(&Command::GetAll)), Some(Command::GetAll)));
    assert!(matches!(decode_command(&encode_command(&Command::NoOp)), Some(Command::NoOp)));
    assert!(decode_command(&vec![8, 0, 0, 0]).is_none());
    assert!(decode_command(&vec![6, 0, 0, 0, 0]).is_none());
}

#[test]
fn result_round_trip() {
    assert_eq!(encode_result(&ResultValue::Done), vec![1, 0, 0, 0]);
    assert_eq!(encode_result(&ResultValue::Nil), vec![2, 0, 0, 0]);
    let b = encode_result(&ResultValue::OkValue(Value::from(3u64)));
    assert!(matches!(decode_result(&b), Some(ResultValue::OkValue(Value::Integer(n))) if n.value == 3));
    assert!(matches!(decode_result(&vec![1, 0, 0, 0]), Some(ResultValue::Done)));
    assert!(decode_result(&vec![3, 0, 0, 0]).is_none());
}

#[test]
fn map_round_trip() {
    let mut m = ValueMap::new();
    m.insert("a".to_string(), Value::from(1u64));
    let b = encode_map(&m);
    assert_eq!(&b[0..8], &[1, 0, 0, 0, 0, 0, 0, 0]);
    let back = decode_map(&b).expect("decodes");
    assert_eq!(back.len(), 1);
    assert!(decode_map(&vec![1, 0, 0, 0, 0, 0, 0, 0]).is_none());
}

#[test]
fn frame_prefixes_the_length() {
    assert_eq!(frame(&vec![9, 8]), vec![2, 0, 0, 0, 0, 0, 0, 0, 9, 8]);
}

#[test]
fn connection_serves_whole_frames_only() {
    let mut ks = Keyspace::new(128);
    let mut conn = Connection::new();
    let req = frame(&encode_command(&Command::Put("a".to_string(), Value::from(1u64))));
    conn.receive(&req[..5]);
    assert!(matches!(conn.serve(&mut ks), Step::Wait));
    conn.receive(&req[5..]);
    let get = frame(&encode_command(&Command::Get("a".to_string())));
    conn.receive(&get);
    match conn.serve(&mut ks) {
        Step::Send(b) => assert_eq!(b, frame(&encode_result(&ResultValue::Done))),
        other => panic!("unexpected {:?}", other),
    }
    match conn.serve(&mut ks) {
        Step::Send(b) => assert_eq!(b, frame(&encode_result(&ResultValue::OkValue(Value::from(1u64))))),
        other => panic!("unexpected {:?}", other),
    }
    assert!(matches!(conn.serve(&mut ks), Step::Wait));
}

#[test]
fn connection_closes_on_bad_frames() {
    let mut ks = Keyspace::new(128);
    let mut conn = Connection::with_limit(4);
    conn.receive(&[5, 0, 0, 0, 0, 0, 0, 0]);
    assert!(matches!(conn.serve(&mut ks), Step::Close));
    let mut conn = Connection::new();
    conn.receive(&frame(&vec![42, 0, 0, 0]));
    assert!(matches!(conn.serve(&mut ks), Step::Close));
}

#[test]
fn connection_get_all_sends_the_map_and_no_op_is_quiet() {
    let mut ks = Keyspace::new(128);
    let mut conn = Connection::new();
    conn.receive(&frame(&encode_command(&Command::Put("a".to_string(), Value::Nil))));
    conn.receive(&frame(&encode_command(&Command::GetAll)));
    conn.receive(&frame(&encode_command(&Command::NoOp)));
    assert!(matches!(conn.serve(&mut ks), Step::Send(_)));
    match conn.serve(&mut ks) {
        Step::Send(b) => {
            let m = decode_map(&b[8..].to_vec()).expect("a map");
            assert_eq!(m.len(), 1);
        },
        other => panic!("unexpected {:?}", other),
    }
    assert!(matches!(conn.serve(&mut ks), Step::Quiet));
}

#[test]
fn frame_length_reads_the_head_and_checks_the_limit() {
    assert_eq!(frame_length(&[2, 1, 0, 0, 0, 0, 0, 0], 1024), Some(258));
    assert_eq!(frame_length(&[0, 0, 0x10, 0, 0, 0, 0, 0], 1 << 20), Some(1 << 20));
    assert_eq!(frame_length(&[1, 0, 0x10, 0, 0, 0, 0, 0], 1 << 20), None);
    assert_eq!(frame_length(&[1, 0, 0], 1024), None);
}
