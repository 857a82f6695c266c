use store::command::{execute, Command, Reply};
use store::config::ParsedConfig;
use store::keyspace::Keyspace;
use store::value::{ResultValue, StringValue, Value, ValueMap};

fn s(x: &str) -> String {
    x.to_string()
}

fn text(x: &str) -> Value {
    Value::String(StringValue::new(x))
}

fn is_done(r: Reply) -> bool {
    matches!(r, Reply::Answer(ResultValue::Done))
}

fn is_nil(r: Reply) -> bool {
    matches!(r, Reply::Answer(ResultValue::Nil))
}

fn int_of(r: Reply) -> Option<u64> {
    match r {
        Reply::Answer(ResultValue::OkValue(Value::Integer(n))) => Some(n.value),
        _ => None,
    }
}

fn text_of(r: Reply) -> Option<String> {
    match r {
        Reply::Answer(ResultValue::OkValue(Value::String(v))) => Some(v.value),
        _ => None,
    }
}

#[test]
fn set_get_del_get() {
    let mut ks = Keyspace::new(128);
    assert!(is_done(execute(&mut ks, Command::Put(s("a"), text("hi")))));
    assert_eq!(text_of(execute(&mut ks, Command::Get(s("a")))), Some(s("hi")));
    assert!(is_done(execute(&mut ks, Command::Del(s("a")))));
    assert!(is_nil(execute(&mut ks, Command::Get(s("a")))));
    assert!(is_nil(execute(&mut ks, Command::Del(s("a")))));
}

#[test]
fn map_set_get_del() {
    let mut ks = Keyspace::new(128);
    assert!(is_done(execute(&mut ks, Command::Put(s("m"), Value::Dict(ValueMap::new())))));
    assert!(is_done(execute(&mut ks, Command::MapSet(s("m"), s("x"), Value::from(7u64)))));
    assert_eq!(int_of(execute(&mut ks, Command::MapGet(s("m"), s("x")))), Some(7));
    assert!(is_done(execute(&mut ks, Command::MapDel(s("m"), s("x")))));
    assert!(is_nil(execute(&mut ks, Command::MapGet(s("m"), s("x")))));
    assert!(is_nil(execute(&mut ks, Command::MapDel(s("m"), s("x")))));
}

#[test]
fn map_commands_on_a_string_fail_and_change_nothing() {
    let mut ks = Keyspace::new(128);
    assert!(is_done(execute(&mut ks, Command::Put(s("s"), text("hi")))));
    assert!(is_nil(execute(&mut ks, Command::MapGet(s("s"), s("x")))));
    assert!(is_nil(execute(&mut ks, Command::MapSet(s("s"), s("x"), Value::from(1u64)))));
    assert!(is_nil(execute(&mut ks, Command::MapDel(s("s"), s("x")))));
    assert_eq!(text_of(execute(&mut ks, Command::Get(s("s")))), Some(s("hi")));
}

#[test]
fn map_commands_on_a_missing_key_fail() {
    let mut ks = Keyspace::new(128);
    assert!(is_nil(execute(&mut ks, Command::MapSet(s("m"), s("x"), Value::from(1u64)))));
    assert!(is_nil(execute(&mut ks, Command::MapGet(s("m"), s("x")))));
    assert!(is_nil(execute(&mut ks, Command::Get(s("m")))));
}

#[test]
fn cap_of_two_keys() {
    let mut ks = Keyspace::new(2);
    assert!(is_done(execute(&mut ks, Command::Put(s("a"), Value::from(1u64)))));
    assert!(is_done(execute(&mut ks, Command::Put(s("b"), Value::from(2u64)))));
    assert!(is_nil(execute(&mut ks, Command::Put(s("c"), Value::from(3u64)))));
    assert!(is_done(execute(&mut ks, Command::Put(s("a"), Value::from(9u64)))));
    assert!(is_nil(execute(&mut ks, Command::Get(s("c")))));
    assert_eq!(int_of(execute(&mut ks, Command::Get(s("a")))), Some(9));
    assert_eq!(ks.len(), 2);
}

#[test]
fn cap_of_zero_rejects_every_put() {
    let mut ks = Keyspace::new(0);
    assert!(is_nil(execute(&mut ks, Command::Put(s(""), Value::Nil))));
    assert_eq!(ks.len(), 0);
}

#[test]
fn two_clients_last_put_wins() {
    let mut ks = Keyspace::new(128);
    assert!(is_done(execute(&mut ks, Command::Put(s("k"), Value::from(1u64)))));
    assert!(is_done(execute(&mut ks, Command::Put(s("k"), Value::from(2u64)))));
    let got = int_of(execute(&mut ks, Command::Get(s("k"))));
    assert!(got == Some(1) || got == Some(2));
    assert_eq!(got, Some(2));
}

#[test]
fn snapshot_holds_a_hundred_inner_keys() {
    let mut ks = Keyspace::new(128);
    assert!(is_done(execute(&mut ks, Command::Put(s("m"), Value::Dict(ValueMap::new())))));
    for i in 0..100u64 {
        assert!(is_done(execute(&mut ks, Command::MapSet(s("m"), format!("k{}", i), Value::from(i)))));
    }
    let snap = match execute(&mut ks, Command::GetAll) {
        Reply::Snapshot(m) => m,
        other => panic!("unexpected {:?}", other),
    };
    assert!(is_done(execute(&mut ks, Command::MapSet(s("m"), s("new"), Value::from(1u64)))));
    assert_eq!(snap.len(), 1);
    match snap.get(&s("m")) {
        Some(Value::Dict(inner)) => {
            assert_eq!(inner.len(), 100);
            for i in 0..100u64 {
                assert!(matches!(inner.get(&format!("k{}", i)), Some(Value::Integer(n)) if n.value == i));
            }
            assert!(inner.get(&s("new")).is_none());
        },
        other => panic!("unexpected {:?}", other),
    }
}

#[test]
fn put_replaces_a_value_of_another_kind() {
    let mut ks = Keyspace::new(128);
    assert!(is_done(execute(&mut ks, Command::Put(s("k"), Value::Dict(ValueMap::new())))));
    assert!(is_done(execute(&mut ks, Command::Put(s("k"), text("x")))));
    assert_eq!(text_of(execute(&mut ks, Command::Get(s("k")))), Some(s("x")));
}

#[test]
fn get_of_a_stored_nil_is_ok_value_nil() {
    let mut ks = Keyspace::new(128);
    assert!(is_done(execute(&mut ks, Command::Put(s("n"), Value::Nil))));
    assert!(matches!(execute(&mut ks, Command::Get(s("n"))), Reply::Answer(ResultValue::OkValue(Value::Nil))));
}

#[test]
fn no_op_is_silent() {
    let mut ks = Keyspace::new(128);
    assert!(matches!(execute(&mut ks, Command::NoOp), Reply::Silent));
}

#[test]
fn untouched_keys_keep_their_values() {
    let mut ks = Keyspace::new(128);
    assert!(is_done(execute(&mut ks, Command::Put(s("a"), Value::from(1u64)))));
    assert!(is_done(execute(&mut ks, Command::Put(s("b"), Value::from(2u64)))));
    assert!(is_done(execute(&mut ks, Command::Del(s("b")))));
    assert_eq!(int_of(execute(&mut ks, Command::Get(s("a")))), Some(1));
}

#[test]
fn command_names() {
    assert_eq!(Command::GetAll.name(), "GetAll");
    assert_eq!(Command::Get(s("a")).name(), "Get");
    assert_eq!(Command::NoOp.name(), "None");
    assert_eq!(Command::Put(s("a"), Value::Nil).name(), "Set");
}

#[test]
fn config_defaults_and_overrides() {
    let c = ParsedConfig { host: None, max_keys: None }.to_config();
    assert_eq!(c.host, "127.0.0.1:6767");
    assert_eq!(c.max_keys, 128);
    let c = ParsedConfig { host: Some(s("0.0.0.0:1")), max_keys: Some(2) }.to_config();
    assert_eq!(c.host, "0.0.0.0:1");
    assert_eq!(c.max_keys, 2);
}
