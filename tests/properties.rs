use matrix_canonical_json::{to_canonical_string, to_canonical_vec, Error, Value};

fn s(text: &str) -> Value {
    Value::Str(text.to_string())
}

fn obj(members: Vec<(&str, Value)>) -> Value {
    Value::Object(members.into_iter().map(|(k, v)| (s(k), v)).collect())
}

/// The value that a JSON reader builds from a document.
fn from_json(v: &serde_json::Value) -> Value {
    match v {
        serde_json::Value::Null => Value::Null,
        serde_json::Value::Bool(b) => Value::Bool(*b),
        serde_json::Value::Number(n) => {
            if let Some(u) = n.as_u64() {
                Value::UInt(u as u128)
            } else if let Some(i) = n.as_i64() {
                Value::Int(i as i128)
            } else {
                Value::F64(n.to_string())
            }
        }
        serde_json::Value::String(t) => s(t),
        serde_json::Value::Array(xs) => Value::List(xs.iter().map(from_json).collect()),
        serde_json::Value::Object(m) => {
            Value::Object(m.iter().map(|(k, v)| (s(k), from_json(v))).collect())
        }
    }
}

fn sample(order: &[usize]) -> Value {
    let members = vec![
        ("b", Value::UInt(2)),
        ("a", Value::Int(-1)),
        ("本", s("x")),
        ("aa", Value::Null),
    ];
    let mut picked = Vec::new();
    for &i in order {
        let (k, _) = &members[i];
        let v = match i {
            0 => Value::UInt(2),
            1 => Value::Int(-1),
            2 => s("x"),
            _ => Value::Null,
        };
        picked.push((*k, v));
    }
    obj(picked)
}

#[test]
fn member_order_does_not_matter() {
    let expected = r#"{"a":-1,"aa":null,"b":2,"本":"x"}"#;
    for order in [[0, 1, 2, 3], [3, 2, 1, 0], [2, 0, 3, 1], [1, 3, 0, 2]] {
        assert_eq!(to_canonical_string(&sample(&order)).unwrap(), expected);
    }
}

#[test]
fn reencoding_a_parsed_encoding_is_stable() {
    let v = obj(vec![
        ("z", Value::List(vec![Value::Int(-5), Value::Bool(false), s("q\"\n")])),
        ("a", obj(vec![("k", Value::Bytes(vec![0, 7, 255])), ("j", Value::Null)])),
        ("m", Value::UnitVariant("On".to_string())),
    ]);
    let first = to_canonical_string(&v).unwrap();
    let parsed: serde_json::Value = serde_json::from_str(&first).unwrap();
    let second = to_canonical_string(&from_json(&parsed)).unwrap();
    assert_eq!(first, second);
}

#[test]
fn printable_ascii_string_is_only_quoted() {
    let text = " !#$%&'()*+,-./0123456789:;<=>?@ABCXYZ[]^_`abcxyz{|}~";
    assert_eq!(to_canonical_string(&s(text)).unwrap(), format!("\"{}\"", text));
}

#[test]
fn float_anywhere_is_invalid_input() {
    let deep = Value::List(vec![
        Value::UInt(1),
        obj(vec![("a", Value::Present(Box::new(Value::F32("0.5".to_string()))))]),
    ]);
    assert!(matches!(
        to_canonical_vec(&deep),
        Err(Error::InvalidInput(msg)) if msg == "f32 is not valid in canonical JSON found 0.5"
    ));
    let as_key = Value::Object(vec![(Value::F64("2".to_string()), Value::Null)]);
    assert!(matches!(
        to_canonical_vec(&as_key),
        Err(Error::InvalidInput(msg)) if msg == "key must be a string"
    ));
}

#[test]
fn size_limit_boundary() {
    // `"` + n bytes + `"`
    let fits = s(&"a".repeat(65_533));
    assert_eq!(to_canonical_vec(&fits).unwrap().len(), 65_535);
    let over = s(&"a".repeat(65_534));
    assert!(matches!(to_canonical_vec(&over), Err(Error::SizeLimit)));
}

#[test]
fn escapes_control_quote_and_backslash() {
    let v = s("a\"b\\c\n\t\r\u{8}\u{c}\u{1}\u{1f}\u{7f}é");
    assert_eq!(
        to_canonical_string(&v).unwrap(),
        "\"a\\\"b\\\\c\\n\\t\\r\\b\\f\\u0001\\u001f\u{7f}é\""
    );
}

#[test]
fn integers_in_decimal() {
    let v = Value::List(vec![
        Value::Int(i128::MIN),
        Value::Int(0),
        Value::Int(-7),
        Value::UInt(u128::MAX),
        Value::UInt(10),
    ]);
    assert_eq!(
        to_canonical_string(&v).unwrap(),
        "[-170141183460469231731687303715884105728,0,-7,340282366920938463463374607431768211455,10]"
    );
}

#[test]
fn bytes_are_an_array_of_numbers() {
    assert_eq!(to_canonical_string(&Value::Bytes(vec![1, 0, 255])).unwrap(), "[1,0,255]");
    assert_eq!(to_canonical_string(&Value::Bytes(vec![])).unwrap(), "[]");
}

#[test]
fn variants() {
    assert_eq!(to_canonical_string(&Value::UnitVariant("A".to_string())).unwrap(), "\"A\"");
    let newtype = Value::NewtypeVariant("B".to_string(), Box::new(Value::UInt(3)));
    assert_eq!(to_canonical_string(&newtype).unwrap(), "3");
    let tuple = Value::TupleVariant("C".to_string(), vec![Value::UInt(1), Value::Null]);
    assert_eq!(to_canonical_string(&tuple).unwrap(), r#"{"C":[1,null]}"#);
    let strukt = Value::StructVariant(
        "D".to_string(),
        vec![(s("y"), Value::Bool(true)), (s("x"), Value::Bool(false))],
    );
    assert_eq!(to_canonical_string(&strukt).unwrap(), r#"{"D":{"x":false,"y":true}}"#);
    assert_eq!(to_canonical_string(&Value::List(vec![])).unwrap(), "[]");
}

#[test]
fn keys_that_read_as_strings() {
    let v = Value::Object(vec![
        (Value::UInt(10), Value::Null),
        (Value::Int(-2), Value::Null),
        (Value::UnitVariant("k".to_string()), Value::Null),
        (Value::Str("é".to_string()), Value::Null),
    ]);
    assert_eq!(
        to_canonical_string(&v).unwrap(),
        r#"{"-2":null,"10":null,"k":null,"é":null}"#
    );
}

#[test]
fn keys_of_other_shapes_fail() {
    for key in [
        Value::Bool(true),
        Value::Null,
        Value::Bytes(vec![1]),
        Value::Present(Box::new(s("a"))),
        Value::List(vec![]),
    ] {
        let v = Value::Object(vec![(key, Value::UInt(1))]);
        assert!(matches!(
            to_canonical_vec(&v),
            Err(Error::InvalidInput(msg)) if msg == "key must be a string"
        ));
    }
}

#[test]
fn first_error_in_order_wins() {
    let v = Value::List(vec![
        Value::F64("1.5".to_string()),
        Value::F32("2.5".to_string()),
    ]);
    assert!(matches!(
        to_canonical_vec(&v),
        Err(Error::InvalidInput(msg)) if msg == "f64 is not valid in canonical JSON found 1.5"
    ));
}
