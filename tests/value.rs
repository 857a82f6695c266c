use store::value::{IntegerValue, StringValue, Value, ResultValue};

#[test]
fn integer_string_from() {
    let my_val_from = IntegerValue::from(69);
    assert_eq!(my_val_from, IntegerValue { value: 69_u64 });
}

#[test]
fn integer_string_into() {
    let my_val_into: IntegerValue = 420.into();
    assert_eq!(my_val_into, IntegerValue { value: 420_u64 });
}

#[test]
fn integer_string_fmt() {
    let my_val = IntegerValue::new(2_u64);
    println!("{}", my_val.to_text());
}

#[test]
fn string_string_from() {
    let my_val_from = StringValue::from("test from");
    assert_eq!(
        my_val_from,
        StringValue {
            value: "test from".to_string()
        }
    );
}

#[test]
fn string_string_into() {
    let my_val_into: StringValue = "test into".into();
    assert_eq!(
        my_val_into,
        StringValue {
            value: "test into".to_string()
        }
    );
}

#[test]
fn string_string_fmt() {
    let my_val = StringValue::new("test");
    println!("{}", my_val.to_text());
}

#[test]
fn integer_text_is_decimal() {
    assert_eq!(IntegerValue::new(2).to_text(), "2");
    assert_eq!(IntegerValue::new(69).to_text(), "69");
    assert_eq!(IntegerValue::new(u64::MAX).to_text(), "18446744073709551615");
}

#[test]
fn string_text_is_the_string() {
    assert_eq!(StringValue::new("test").to_text(), "test");
}

#[test]
fn value_from_u64_is_integer() {
    match Value::from(7u64) {
        Value::Integer(n) => assert_eq!(n.value, 7),
        other => panic!("unexpected {:?}", other),
    }
}

#[test]
fn to_result_wraps_values_and_maps_nil_to_nil() {
    match Value::from(5u64).to_result() {
        ResultValue::OkValue(Value::Integer(n)) => assert_eq!(n.value, 5),
        other => panic!("unexpected {:?}", other),
    }
    assert!(matches!(Value::Nil.to_result(), ResultValue::Nil));
}

#[test]
fn value_map_insert_get_remove() {
    let mut m = store::value::ValueMap::new();
    assert_eq!(m.len(), 0);
    m.insert("a".to_string(), Value::from(1u64));
    m.insert("b".to_string(), Value::from(2u64));
    m.insert("a".to_string(), Value::from(3u64));
    assert_eq!(m.len(), 2);
    let (k, _) = m.entry(0);
    assert_eq!(k, "a");
    assert!(matches!(m.get(&"a".to_string()), Some(Value::Integer(n)) if n.value == 3));
    assert!(m.remove(&"a".to_string()));
    assert!(!m.remove(&"a".to_string()));
    assert!(m.get(&"a".to_string()).is_none());
    assert_eq!(m.len(), 1);
}
