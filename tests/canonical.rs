use std::io::{self, Error as IoError, ErrorKind, Write};

use matrix_canonical_json::{to_canonical_string, to_canonical_vec, Error, Value};

fn s(text: &str) -> Value {
    Value::Str(text.to_string())
}

fn obj(members: Vec<(&str, Value)>) -> Value {
    Value::Object(members.into_iter().map(|(k, v)| (s(k), v)).collect())
}

#[test]
fn check_canonical_empty() {
    let json = obj(vec![]);
    assert_eq!(to_canonical_string(&json).unwrap(), r#"{}"#)
}

#[test]
fn check_canonical_num() {
    let json = obj(vec![("b", s("2")), ("a", s("1"))]);
    assert_eq!(to_canonical_string(&json).unwrap(), r#"{"a":"1","b":"2"}"#)
}

#[test]
fn check_canonical_obj() {
    let json = obj(vec![("one", Value::UInt(1)), ("two", s("Two"))]);
    assert_eq!(
        to_canonical_string(&json).unwrap(),
        r#"{"one":1,"two":"Two"}"#
    )
}

#[test]
fn check_canonical_sorts_keys() {
    let json = obj(vec![(
        "auth",
        obj(vec![
            ("success", Value::Bool(true)),
            ("mxid", s("@john.doe:example.com")),
            (
                "profile",
                obj(vec![
                    ("display_name", s("John Doe")),
                    (
                        "three_pids",
                        Value::List(vec![
                            obj(vec![
                                ("medium", s("email")),
                                ("address", s("john.doe@example.org")),
                            ]),
                            obj(vec![("medium", s("msisdn")), ("address", s("123456789"))]),
                        ]),
                    ),
                ]),
            ),
        ]),
    )]);

    assert_eq!(
        to_canonical_string(&json).unwrap(),
        r#"{"auth":{"mxid":"@john.doe:example.com","profile":{"display_name":"John Doe","three_pids":[{"address":"john.doe@example.org","medium":"email"},{"address":"123456789","medium":"msisdn"}]},"success":true}}"#
    )
}

#[test]
fn check_canonical_utf8_keys() {
    let json = obj(vec![("本", Value::UInt(2)), ("日", Value::UInt(1))]);
    assert_eq!(to_canonical_string(&json).unwrap(), r#"{"日":1,"本":2}"#)
}

#[test]
fn check_canonical_utf8_value() {
    let json = obj(vec![("a", s("日本語"))]);
    assert_eq!(to_canonical_string(&json).unwrap(), r#"{"a":"日本語"}"#)
}

#[test]
fn check_canonical_utf8_display() {
    let json = obj(vec![("a", s("\u{65E5}"))]);
    assert_eq!(to_canonical_string(&json).unwrap(), r#"{"a":"日"}"#)
}

#[test]
fn check_canonical_null() {
    let json = obj(vec![("a", Value::Null)]);
    assert_eq!(to_canonical_string(&json).unwrap(), r#"{"a":null}"#)
}

#[test]
fn check_canonical_float_value() {
    let json = obj(vec![("a", Value::F64((1.01_f32 as f64).to_string()))]);
    assert!(to_canonical_string(&json).is_err())
}

#[test]
fn sorts_keys_of_structs() {
    // fields declared in the order z, y, x
    let t = obj(vec![
        ("z", Value::UInt(10)),
        ("y", Value::UInt(23)),
        ("x", Value::UInt(1)),
    ]);

    assert_eq!(to_canonical_string(&t).unwrap(), r#"{"x":1,"y":23,"z":10}"#)
}

#[test]
fn test_float_error() {
    let t = obj(vec![("x", Value::F64(1.01_f64.to_string()))]);

    assert!(matches!(
        to_canonical_string(&t),
        Err(Error::InvalidInput(msg)) if msg == "f64 is not valid in canonical JSON found 1.01"
    ))
}

#[test]
fn test_write_error() {
    struct FailWriter;
    impl Write for FailWriter {
        fn write(&mut self, _: &[u8]) -> io::Result<usize> {
            Err(IoError::new(ErrorKind::Other, "failed"))
        }
        fn flush(&mut self) -> io::Result<()> {
            Ok(())
        }
    }

    let t = obj(vec![("x", Value::UInt(1))]);

    let bytes = to_canonical_vec(&t).unwrap();
    let written = FailWriter.write_all(&bytes).map_err(Error::io);
    assert!(matches!(written, Err(Error::IOError(msg)) if msg.to_string() == "failed"))
}

#[test]
fn test_size_error() {
    let mut x = Vec::new();
    for _ in 0..65_535 {
        x.push(s("a"));
    }
    let t = obj(vec![("x", Value::List(x))]);

    assert!(matches!(to_canonical_string(&t), Err(Error::SizeLimit)))
}
