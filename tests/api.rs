use matrix_canonical_json::{
    CanonicalJson, CanonicalJsonFmt, Error, MapKeySerializer, MapKeySorted, Serializer, Value,
};

#[test]
fn serializer_appends_to_its_buffer() {
    let mut ser = Serializer::new(b"x=".to_vec());
    ser.serialize_str("a\u{0}b");
    ser.write_byte(b' ');
    ser.serialize_i128(-12);
    ser.write_byte(b' ');
    ser.serialize_bool(false);
    ser.write_byte(b' ');
    ser.serialize_unit();
    assert_eq!(ser.into_inner(), b"x=\"a\\u0000b\" -12 false null".to_vec());
}

#[test]
fn formatter_tokens() {
    let fmt = CanonicalJsonFmt;
    let mut w = Vec::new();
    fmt.write_u128(&mut w, 0);
    fmt.write_char_escape(&mut w, b'u', 0x1b);
    fmt.write_char_escape(&mut w, b'"', b'"');
    assert_eq!(w, b"0\\u001b\\\"".to_vec());
}

#[test]
fn canonical_json_appends_after_existing_bytes() {
    let mut out = CanonicalJson::new(b"[".to_vec());
    let v = Value::Object(vec![
        (Value::Str("b".to_string()), Value::UInt(1)),
        (Value::Str("a".to_string()), Value::UInt(2)),
    ]);
    assert!(out.serialize(&v).is_ok());
    assert_eq!(out.into_inner(), b"[{\"a\":2,\"b\":1}".to_vec());
}

#[test]
fn group_sorts_on_end() {
    let mut group = MapKeySorted::new();
    group
        .serialize_entry(&Value::Str("zz".to_string()), &Value::Bool(true))
        .unwrap();
    group
        .serialize_entry(&Value::Int(7), &Value::Null)
        .unwrap();
    assert!(matches!(
        group.serialize_entry(&Value::Bool(true), &Value::Null),
        Err(Error::InvalidInput(msg)) if msg == "key must be a string"
    ));
    let mut out = CanonicalJson::new(Vec::new());
    group.end(&mut out);
    assert_eq!(out.into_inner(), b"{\"7\":null,\"zz\":true}".to_vec());
}

#[test]
fn key_serializer_quotes_integers() {
    let mut keys = MapKeySerializer::new(Serializer::new(Vec::new()));
    keys.serialize_key(&Value::UInt(42)).unwrap();
    assert_eq!(keys.ser.into_inner(), b"\"42\"".to_vec());
}
