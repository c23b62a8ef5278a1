use serde_bencode::ser::{put_field, Serializer};
use serde_bencode::{to_binary, to_binary_ref, Dictionary, Error, Value, ValueRef};

fn text(s: &str) -> Value {
    Value::String(s.to_string())
}

fn written(ser: Serializer) -> Vec<u8> {
    ser.into_bytes()
}

#[test]
fn integer_writes() {
    assert_eq!(to_binary(&Value::Number(0)), Ok(b"i0e".to_vec()));
    assert_eq!(to_binary(&Value::Number(4)), Ok(b"i4e".to_vec()));
    assert_eq!(to_binary(&Value::Number(-1)), Ok(b"i-1e".to_vec()));
    assert_eq!(to_binary(&Value::Number(-114)), Ok(b"i-114e".to_vec()));
    assert_eq!(to_binary(&Value::Number(10)), Ok(b"i10e".to_vec()));
    assert_eq!(to_binary(&Value::Number(1000)), Ok(b"i1000e".to_vec()));
    assert_eq!(to_binary(&Value::Number(i64::MAX)), Ok(b"i9223372036854775807e".to_vec()));
    assert_eq!(to_binary(&Value::Number(i64::MIN)), Ok(b"i-9223372036854775808e".to_vec()));
}

#[test]
fn byte_string_writes() {
    assert_eq!(to_binary(&text("foo")), Ok(b"3:foo".to_vec()));
    assert_eq!(to_binary(&text("")), Ok(b"0:".to_vec()));
    assert_eq!(to_binary(&text("0123456789")), Ok(b"10:0123456789".to_vec()));
    assert_eq!(to_binary(&Value::Bytes(b"l\xFFlw".to_vec())), Ok(b"4:l\xFFlw".to_vec()));
    assert_eq!(to_binary(&text("h\u{e9}")), Ok(b"3:h\xC3\xA9".to_vec()));
    assert_eq!(to_binary(&text("a:b e")), Ok(b"5:a:b e".to_vec()));
}

#[test]
fn list_writes() {
    assert_eq!(to_binary(&Value::List(vec![])), Ok(b"le".to_vec()));
    assert_eq!(
        to_binary(&Value::List(vec![text("spam"), text("eggs")])),
        Ok(b"l4:spam4:eggse".to_vec())
    );
    assert_eq!(
        to_binary(&Value::List(vec![Value::List(vec![]), Value::Number(3)])),
        Ok(b"llei3ee".to_vec())
    );
}

#[test]
fn dictionary_writes_keys_in_ascending_order() {
    let mut map = Dictionary::new();
    map.insert("two".to_string(), Value::Number(2));
    map.insert("one".to_string(), Value::Number(1));
    assert_eq!(to_binary(&Value::Dictionary(map)), Ok(b"d3:onei1e3:twoi2ee".to_vec()));

    let mut map = Dictionary::new();
    map.insert("one".to_string(), Value::Number(1));
    map.insert("two".to_string(), Value::Number(2));
    assert_eq!(to_binary(&Value::Dictionary(map)), Ok(b"d3:onei1e3:twoi2ee".to_vec()));
}

#[test]
fn dictionary_order_is_that_of_bytes() {
    let mut map = Dictionary::new();
    for key in ["b", "ab", "a", "B", "", "\u{e9}", "z", "aa"] {
        map.insert(key.to_string(), Value::Number(0));
    }
    assert_eq!(
        to_binary(&Value::Dictionary(map)),
        Ok(b"d0:i0e1:Bi0e1:ai0e2:aai0e2:abi0e1:bi0e1:zi0e2:\xC3\xA9i0ee".to_vec())
    );
}

#[test]
fn empty_dictionary_write() {
    assert_eq!(to_binary(&Value::Dictionary(Dictionary::new())), Ok(b"de".to_vec()));
}

#[test]
fn nested_write() {
    let mut map = Dictionary::new();
    map.insert("spam".to_string(), Value::List(vec![text("a"), text("b")]));
    assert_eq!(to_binary(&Value::Dictionary(map)), Ok(b"d4:spaml1:a1:bee".to_vec()));
}

#[test]
fn borrowing_values_write_like_owning_ones() {
    assert_eq!(to_binary_ref(&ValueRef::Number(-3)), Ok(b"i-3e".to_vec()));
    assert_eq!(to_binary_ref(&ValueRef::String("spam")), Ok(b"4:spam".to_vec()));
    assert_eq!(to_binary_ref(&ValueRef::Bytes(b"\xFF")), Ok(b"1:\xFF".to_vec()));
    let mut map = Dictionary::new();
    map.insert("z".to_string(), ValueRef::List(vec![ValueRef::Number(1)]));
    map.insert("a".to_string(), ValueRef::Bytes(b"\x00"));
    assert_eq!(to_binary_ref(&ValueRef::Dictionary(map)), Ok(b"d1:a1:\x001:zli1eee".to_vec()));
}

#[test]
fn raw_pushes() {
    let mut ser = Serializer::new();
    ser.push_bytes(b"ab");
    ser.push_str("c\u{e9}".to_string());
    ser.push_bytes(b"");
    assert_eq!(written(ser), b"abc\xC3\xA9");
}

#[test]
fn token_writes_append() {
    let mut ser = Serializer::new();
    ser.ser_number(-25);
    ser.ser_bytes(b"xy");
    ser.ser_string("hello");
    assert_eq!(written(ser), b"i-25e2:xy5:hello");
}

#[test]
fn aggregate_writes() {
    let mut ser = Serializer::new();
    ser.begin_list();
    ser.ser_number(1);
    ser.begin_dictionary();
    ser.end();
    ser.end();
    assert_eq!(written(ser), b"li1edee");
}

#[test]
fn typed_writes() {
    let mut ser = Serializer::new();
    assert_eq!(ser.serialize_i8(-128), Ok(()));
    assert_eq!(ser.serialize_i16(-300), Ok(()));
    assert_eq!(ser.serialize_i32(70000), Ok(()));
    assert_eq!(ser.serialize_i64(-5000000000), Ok(()));
    assert_eq!(ser.serialize_u8(255), Ok(()));
    assert_eq!(ser.serialize_u16(65535), Ok(()));
    assert_eq!(ser.serialize_u32(4294967295), Ok(()));
    assert_eq!(ser.serialize_u64(9223372036854775807), Ok(()));
    assert_eq!(ser.serialize_str("ab"), Ok(()));
    assert_eq!(ser.serialize_bytes(b"\x01"), Ok(()));
    assert_eq!(
        written(ser),
        &b"i-128ei-300ei70000ei-5000000000ei255ei65535ei4294967295ei9223372036854775807e2:ab1:\x01"
            [..]
    );
}

#[test]
fn unsupported_shapes_write_nothing() {
    let mut ser = Serializer::new();
    assert_eq!(ser.serialize_bool(true), Err(Error::TypeNotSupported));
    assert_eq!(ser.serialize_char('x'), Err(Error::TypeNotSupported));
    assert_eq!(ser.serialize_unit(), Err(Error::TypeNotSupported));
    assert_eq!(ser.serialize_u64(9223372036854775808), Err(Error::Syntax));
    assert_eq!(ser.serialize_u64(u64::MAX), Err(Error::Syntax));
    assert_eq!(ser.serialize_none(), Ok(()));
    assert_eq!(written(ser), b"");
}

#[test]
fn encoded_dictionary_is_written_in_key_order() {
    let mut fields = Dictionary::new();
    put_field(&mut fields, "two".to_string(), b"i2e".to_vec());
    put_field(&mut fields, "one".to_string(), b"i1e".to_vec());
    put_field(&mut fields, "list".to_string(), b"le".to_vec());
    let mut ser = Serializer::new();
    ser.ser_dictionary(&fields);
    assert_eq!(written(ser), b"d4:listle3:onei1e3:twoi2ee");
}

#[test]
fn an_absent_field_is_left_out() {
    let mut fields = Dictionary::new();
    put_field(&mut fields, "name".to_string(), b"4:spam".to_vec());
    put_field(&mut fields, "comment".to_string(), Vec::new());
    assert_eq!(fields.len(), 1);
    assert!(fields.get("comment").is_none());
    let mut ser = Serializer::new();
    ser.ser_dictionary(&fields);
    assert_eq!(written(ser), b"d4:name4:spame");
}

#[test]
fn empty_encoded_dictionary() {
    let mut ser = Serializer::new();
    ser.ser_dictionary(&Dictionary::new());
    assert_eq!(written(ser), b"de");
}
