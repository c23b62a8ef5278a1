use serde_bencode::de::Deserializer;
use serde_bencode::grammar::TokenKind;
use serde_bencode::{from_binary, from_binary_ref, Dictionary, Error, Value, ValueRef};

fn text(s: &str) -> Value {
    Value::String(s.to_string())
}

#[test]
fn test_struct() {
    let j = b"d3:fooi255e3:bari1023e1:zi1ee";
    let mut expected = Dictionary::new();
    expected.insert("foo".to_string(), Value::Number(255));
    expected.insert("bar".to_string(), Value::Number(1023));
    expected.insert("z".to_string(), Value::Number(1));
    assert_eq!(Value::Dictionary(expected), from_binary(j).unwrap());

    let decoded = from_binary(j).unwrap();
    match decoded {
        Value::Dictionary(fields) => {
            assert_eq!(fields.get("foo"), Some(&Value::Number(255)));
            assert_eq!(fields.get("bar"), Some(&Value::Number(1023)));
        }
        other => panic!("not a dictionary: {:?}", other),
    }
}

#[test]
fn numeric_into_i64_is_the_number_itself() {
    assert_eq!(
        Deserializer::new(b"i-9223372036854775807e").parse_numeric::<i64>(),
        Ok(i64::MIN + 1)
    );
    assert_eq!(Deserializer::new(b"i-9223372036854775808e").parse_numeric::<i64>(), Ok(i64::MIN));
    assert_eq!(Deserializer::new(b"i9223372036854775807e").parse_numeric::<i64>(), Ok(i64::MAX));
    assert_eq!(Deserializer::new(b"i4e").parse_numeric::<i64>(), Ok(4));
    assert_eq!(Deserializer::new(b"i4e").deserialize_i64(), Ok(4));
    assert_eq!(
        Deserializer::new(b"i9223372036854775808e").parse_numeric::<i64>(),
        Err(Error::ExpectedNumber)
    );
}

#[test]
fn test_number() {
    let mut de = Deserializer::new(b"i-114e");
    assert_eq!(de.parse_numeric::<i64>(), Ok(-114));
    assert_eq!(from_binary(b"i-114e"), Ok(Value::Number(-114)));
}

#[test]
fn test_string() {
    let mut de = Deserializer::new(b"3:foo");
    assert_eq!(de.parse_string(), Ok("foo".to_string()));
}

#[test]
fn test_borrow_str() {
    let mut de = Deserializer::new(b"4:meta");
    assert_eq!(de.parse_str(), Ok("meta"));
}

#[test]
fn test_bytes() {
    let mut de = Deserializer::new(b"4:asdf");
    assert_eq!(de.parse_bytes(), Ok(&b"asdf"[..]));
    let mut de = Deserializer::new(b"4:asdf");
    assert_eq!(de.deserialize_byte_buf(), Ok(b"asdf".to_vec()));
}

#[test]
fn truncated_byte_string_is_eof() {
    let mut de = Deserializer::new(b"4:asd");
    assert_eq!(de.parse_bytes(), Err(Error::Eof));
    assert_eq!(from_binary(b"4:asd"), Err(Error::Eof));
    assert_eq!(from_binary(b"4"), Err(Error::Eof));
    assert_eq!(from_binary(b"4:"), Err(Error::Eof));
}

#[test]
fn empty_byte_string() {
    assert_eq!(from_binary(b"0:"), Ok(text("")));
    let mut de = Deserializer::new(b"0:");
    assert_eq!(de.parse_bytes(), Ok(&b""[..]));
}

#[test]
fn bytes_are_borrowed_from_the_input() {
    let data = b"l4:spami7ee".to_vec();
    let mut de = Deserializer::new(&data);
    assert_eq!(de.begin_list(), Ok(()));
    let run = de.parse_bytes().unwrap();
    assert_eq!(run.as_ptr(), data[3..].as_ptr());
    assert_eq!(run, b"spam");
}

#[test]
fn lexer_folds_digits_left_to_right() {
    let mut de = Deserializer::new(b"1234:");
    assert_eq!(de.parse_seq_number(b':'), Ok(1234));
    assert_eq!(de.peek(), Ok(b':'));
    let mut de = Deserializer::new(b"907e");
    assert_eq!(de.parse_seq_number(b'e'), Ok(907));
    assert_eq!(de.peek(), Ok(b'e'));
}

#[test]
fn lexer_negates_by_the_sign() {
    let mut de = Deserializer::new(b"-42e");
    assert_eq!(de.parse_seq_number(b'e'), Ok(-42));
    let mut de = Deserializer::new(b"-0e");
    assert_eq!(de.parse_seq_number(b'e'), Ok(0));
    let mut de = Deserializer::new(b"0e");
    assert_eq!(de.parse_seq_number(b'e'), Ok(0));
    let mut de = Deserializer::new(b"07e");
    assert_eq!(de.parse_seq_number(b'e'), Ok(7));
    let mut de = Deserializer::new(b"-07e");
    assert_eq!(de.parse_seq_number(b'e'), Ok(-7));
}

#[test]
fn lexer_rejects_what_is_no_number() {
    let mut de = Deserializer::new(b"-e");
    assert_eq!(de.parse_seq_number(b'e'), Err(Error::Syntax));
    let mut de = Deserializer::new(b"e");
    assert_eq!(de.parse_seq_number(b'e'), Err(Error::Syntax));
    let mut de = Deserializer::new(b"12x4e");
    assert_eq!(de.parse_seq_number(b'e'), Err(Error::Syntax));
    let mut de = Deserializer::new(b"--1e");
    assert_eq!(de.parse_seq_number(b'e'), Err(Error::Syntax));
    let mut de = Deserializer::new(b"1-e");
    assert_eq!(de.parse_seq_number(b'e'), Err(Error::Syntax));
    let mut de = Deserializer::new(b"12:");
    assert_eq!(de.parse_seq_number(b'e'), Err(Error::Syntax));
}

#[test]
fn lexer_needs_the_terminator() {
    let mut de = Deserializer::new(b"");
    assert_eq!(de.parse_seq_number(b'e'), Err(Error::Eof));
    let mut de = Deserializer::new(b"-");
    assert_eq!(de.parse_seq_number(b'e'), Err(Error::Eof));
    let mut de = Deserializer::new(b"123");
    assert_eq!(de.parse_seq_number(b'e'), Err(Error::Eof));
}

#[test]
fn lexer_range_is_that_of_i64() {
    let mut de = Deserializer::new(b"9223372036854775807e");
    assert_eq!(de.parse_seq_number(b'e'), Ok(i64::MAX));
    let mut de = Deserializer::new(b"-9223372036854775808e");
    assert_eq!(de.parse_seq_number(b'e'), Ok(i64::MIN));
    let mut de = Deserializer::new(b"9223372036854775808e");
    assert_eq!(de.parse_seq_number(b'e'), Err(Error::ExpectedNumber));
    let mut de = Deserializer::new(b"-9223372036854775809e");
    assert_eq!(de.parse_seq_number(b'e'), Err(Error::ExpectedNumber));
    let mut de = Deserializer::new(b"99999999999999999999999999999999e");
    assert_eq!(de.parse_seq_number(b'e'), Err(Error::ExpectedNumber));
    let mut de = Deserializer::new(b"000000000000000000000000000000005e");
    assert_eq!(de.parse_seq_number(b'e'), Ok(5));
    let mut de = Deserializer::new(b"99999999999999999999999999999999x");
    assert_eq!(de.parse_seq_number(b'e'), Err(Error::Syntax));
}

#[test]
fn integer_tokens() {
    assert_eq!(from_binary(b"i0e"), Ok(Value::Number(0)));
    assert_eq!(from_binary(b"i-1e"), Ok(Value::Number(-1)));
    assert_eq!(from_binary(b"i4e"), Ok(Value::Number(4)));
    assert_eq!(from_binary(b"i-9223372036854775808e"), Ok(Value::Number(i64::MIN)));
    assert_eq!(from_binary(b"i9223372036854775807e"), Ok(Value::Number(i64::MAX)));
}

#[test]
fn malformed_input_is_rejected() {
    assert_eq!(from_binary(b"i-e"), Err(Error::Syntax));
    assert_eq!(from_binary(b"i4"), Err(Error::Eof));
    assert_eq!(from_binary(b"ltest"), Err(Error::Syntax));
    assert_eq!(from_binary(b"ie"), Err(Error::Syntax));
    assert_eq!(from_binary(b""), Err(Error::Eof));
    assert_eq!(from_binary(b"x"), Err(Error::Syntax));
    assert_eq!(from_binary(b"e"), Err(Error::Syntax));
    assert_eq!(from_binary(b"-1:a"), Err(Error::Syntax));
    assert_eq!(from_binary(b"4x:abcd"), Err(Error::Syntax));
    assert_eq!(from_binary(b"i9223372036854775808e"), Err(Error::ExpectedNumber));
}

#[test]
fn typed_numbers_are_range_checked() {
    assert_eq!(Deserializer::new(b"i127e").deserialize_i8(), Ok(127));
    assert_eq!(Deserializer::new(b"i128e").deserialize_i8(), Err(Error::ExpectedNumber));
    assert_eq!(Deserializer::new(b"i-128e").deserialize_i8(), Ok(-128));
    assert_eq!(Deserializer::new(b"i-129e").deserialize_i8(), Err(Error::ExpectedNumber));
    assert_eq!(Deserializer::new(b"i255e").deserialize_u8(), Ok(255));
    assert_eq!(Deserializer::new(b"i256e").deserialize_u8(), Err(Error::ExpectedNumber));
    assert_eq!(Deserializer::new(b"i-1e").deserialize_u8(), Err(Error::ExpectedNumber));
    assert_eq!(Deserializer::new(b"i-32768e").deserialize_i16(), Ok(i16::MIN));
    assert_eq!(Deserializer::new(b"i32768e").deserialize_i16(), Err(Error::ExpectedNumber));
    assert_eq!(Deserializer::new(b"i65535e").deserialize_u16(), Ok(u16::MAX));
    assert_eq!(Deserializer::new(b"i65536e").deserialize_u16(), Err(Error::ExpectedNumber));
    assert_eq!(Deserializer::new(b"i2147483647e").deserialize_i32(), Ok(i32::MAX));
    assert_eq!(Deserializer::new(b"i2147483648e").deserialize_i32(), Err(Error::ExpectedNumber));
    assert_eq!(Deserializer::new(b"i4294967295e").deserialize_u32(), Ok(u32::MAX));
    assert_eq!(Deserializer::new(b"i4294967296e").deserialize_u32(), Err(Error::ExpectedNumber));
    assert_eq!(Deserializer::new(b"i9223372036854775807e").deserialize_u64(), Ok(i64::MAX as u64));
    assert_eq!(Deserializer::new(b"i-1e").deserialize_u64(), Err(Error::ExpectedNumber));
    assert_eq!(Deserializer::new(b"i-5e").deserialize_i64(), Ok(-5));
    assert_eq!(Deserializer::new(b"i300e").parse_numeric::<u8>(), Err(Error::ExpectedNumber));
    assert_eq!(Deserializer::new(b"i200e").parse_numeric::<u8>(), Ok(200));
}

#[test]
fn a_number_has_to_start_with_i() {
    assert_eq!(Deserializer::new(b"4:spam").parse_integer(), Err(Error::ExpectedNumber));
    assert_eq!(Deserializer::new(b"le").deserialize_i32(), Err(Error::ExpectedNumber));
    assert_eq!(Deserializer::new(b"").parse_integer(), Err(Error::Eof));
    assert_eq!(Deserializer::new(b"i12").parse_integer(), Err(Error::Eof));
    assert_eq!(Deserializer::new(b"i12x").parse_integer(), Err(Error::Syntax));
}

#[test]
fn a_byte_string_has_to_start_with_a_digit() {
    assert_eq!(Deserializer::new(b"i4e").parse_bytes(), Err(Error::ExpectedString));
    assert_eq!(Deserializer::new(b"le").parse_str(), Err(Error::ExpectedString));
    assert_eq!(Deserializer::new(b"de").parse_string(), Err(Error::ExpectedString));
    assert_eq!(Deserializer::new(b"-4:spam").parse_bytes(), Err(Error::ExpectedString));
    assert_eq!(Deserializer::new(b"").parse_bytes(), Err(Error::Eof));
    assert_eq!(from_binary(b"di1ei2ee"), Err(Error::ExpectedString));
}

#[test]
fn byte_string_longer_than_any_input() {
    assert_eq!(Deserializer::new(b"9223372036854775807:a").parse_bytes(), Err(Error::Eof));
    assert_eq!(
        Deserializer::new(b"9223372036854775808:a").parse_bytes(),
        Err(Error::ExpectedNumber)
    );
}

#[test]
fn unsupported_shapes_read_nothing() {
    let mut de = Deserializer::new(b"i1e");
    assert_eq!(de.deserialize_bool(), Err(Error::TypeNotSupported));
    assert_eq!(de.deserialize_char(), Err(Error::TypeNotSupported));
    assert_eq!(de.deserialize_i64(), Ok(1));
}

#[test]
fn invalid_text_owned_and_borrowed() {
    let input = b"4:l\xFFlw";
    assert_eq!(Deserializer::new(input).parse_string(), Err(Error::InvalidString));
    assert_eq!(Deserializer::new(input).deserialize_string(), Err(Error::InvalidString));
    assert_eq!(Deserializer::new(input).parse_str(), Err(Error::BorrowFailure));
    assert_eq!(Deserializer::new(input).deserialize_str(), Err(Error::BorrowFailure));
    assert_eq!(Deserializer::new(input).parse_bytes(), Ok(&b"l\xFFlw"[..]));
    assert_eq!(Deserializer::new(input).deserialize_bytes(), Ok(&b"l\xFFlw"[..]));
    assert_eq!(Deserializer::new(input).deserialize_byte_buf(), Ok(b"l\xFFlw".to_vec()));
}

#[test]
fn from_utf8_tells_text_from_bytes() {
    assert_eq!(Deserializer::from_utf8(b"spam"), Ok("spam"));
    assert_eq!(Deserializer::from_utf8(b""), Ok(""));
    let accented = "h\u{e9}llo \u{1F600}";
    assert_eq!(Deserializer::from_utf8(accented.as_bytes()), Ok(accented));
    assert_eq!(Deserializer::from_utf8(b"l\xFFlw"), Err(Error::InvalidString));
    assert_eq!(Deserializer::from_utf8(b"\xC0\x80"), Err(Error::InvalidString));
    assert_eq!(Deserializer::from_utf8(b"\xED\xA0\x80"), Err(Error::InvalidString));
    assert_eq!(Deserializer::from_utf8(b"\xE2\x82"), Err(Error::InvalidString));
}

#[test]
fn test_dyn_number() {
    assert_eq!(from_binary(b"i4e"), Ok(Value::Number(4)));
}

#[test]
fn test_dyn_string() {
    assert_eq!(from_binary(b"4:test"), Ok(text("test")));
}

#[test]
fn test_dyn_bytes() {
    assert_eq!(from_binary(b"4:l\xFFlw"), Ok(Value::Bytes(b"l\xFFlw".to_vec())));
}

#[test]
fn test_dyn_list() {
    assert_eq!(from_binary(b"l3:foo3:bare"), Ok(Value::List(vec![text("foo"), text("bar")])));
}

#[test]
fn test_dyn_dictionary() {
    let mut map = Dictionary::new();
    map.insert("spam".to_string(), Value::List(vec![text("a"), text("b")]));
    assert_eq!(from_binary(b"d4:spaml1:a1:bee"), Ok(Value::Dictionary(map)));
}

#[test]
fn test_empty_list() {
    assert_eq!(from_binary(b"le"), Ok(Value::List(Vec::new())));
}

#[test]
fn test_empty_dictionary() {
    assert_eq!(from_binary(b"de"), Ok(Value::Dictionary(Dictionary::new())));
}

#[test]
fn test_list() {
    assert_eq!(from_binary(b"l4:spam4:eggse"), Ok(Value::List(vec![text("spam"), text("eggs")])));
}

#[test]
fn test_dictionary() {
    let mut map = Dictionary::new();
    map.insert("four".to_string(), Value::Number(4));
    map.insert("one".to_string(), Value::Number(1));
    map.insert("three".to_string(), Value::Number(3));
    map.insert("two".to_string(), Value::Number(2));
    assert_eq!(
        from_binary(b"d4:fouri4e3:onei1e5:threei3e3:twoi2ee"),
        Ok(Value::Dictionary(map))
    );
}

#[test]
fn dictionary_entries_may_stand_in_any_order() {
    let sorted = from_binary(b"d3:onei1e3:twoi2ee").unwrap();
    let unsorted = from_binary(b"d3:twoi2e3:onei1ee").unwrap();
    assert_eq!(sorted, unsorted);
}

#[test]
fn a_repeated_key_keeps_the_last_value() {
    let mut map = Dictionary::new();
    map.insert("a".to_string(), Value::Number(2));
    assert_eq!(from_binary(b"d1:ai1e1:ai2ee"), Ok(Value::Dictionary(map)));
}

#[test]
fn a_key_has_to_be_text() {
    assert_eq!(from_binary(b"d2:\xFF\xFEi1ee"), Err(Error::InvalidString));
    assert_eq!(from_binary_ref(b"d2:\xFF\xFEi1ee"), Err(Error::InvalidString));
}

#[test]
fn an_unclosed_list_or_dictionary_is_expected_end() {
    assert_eq!(from_binary(b"l"), Err(Error::ExpectedEnd));
    assert_eq!(from_binary(b"l4:spam"), Err(Error::ExpectedEnd));
    assert_eq!(from_binary(b"li1ei2e"), Err(Error::ExpectedEnd));
    assert_eq!(from_binary(b"d"), Err(Error::ExpectedEnd));
    assert_eq!(from_binary(b"d3:onei1e"), Err(Error::ExpectedEnd));
    assert_eq!(from_binary(b"lli1e"), Err(Error::ExpectedEnd));
    assert_eq!(from_binary(b"llei1e"), Err(Error::ExpectedEnd));
    assert_eq!(from_binary(b"d1:al"), Err(Error::ExpectedEnd));
    assert_eq!(from_binary_ref(b"l4:spam"), Err(Error::ExpectedEnd));
    assert_eq!(from_binary_ref(b"d3:onei1e"), Err(Error::ExpectedEnd));
}

#[test]
fn an_unclosed_list_yields_no_partial_value() {
    let mut de = Deserializer::new(b"l4:spam");
    assert!(matches!(Value::deserialize(&mut de), Err(Error::ExpectedEnd)));
    let mut de = Deserializer::new(b"l4:spam");
    assert!(matches!(ValueRef::deserialize(&mut de), Err(Error::ExpectedEnd)));
}

#[test]
fn a_token_cut_short_is_eof() {
    assert_eq!(from_binary(b"4:asd"), Err(Error::Eof));
    assert_eq!(from_binary(b"i4"), Err(Error::Eof));
    assert_eq!(from_binary(b"l4:asd"), Err(Error::Eof));
    assert_eq!(from_binary(b"li4"), Err(Error::Eof));
    assert_eq!(from_binary(b"d3:one"), Err(Error::Eof));
    assert_eq!(from_binary(b"d3:on"), Err(Error::Eof));
    assert_eq!(from_binary(b"d3:onei4"), Err(Error::Eof));
    assert_eq!(from_binary(b"d3:one4:asd"), Err(Error::Eof));
    assert_eq!(from_binary_ref(b"d3:one"), Err(Error::Eof));
}

#[test]
fn a_value_is_missing_for_the_last_key() {
    assert_eq!(from_binary(b"d3:onee"), Err(Error::Syntax));
}

#[test]
fn trailing_bytes_are_ignored() {
    assert_eq!(from_binary(b"i4egarbage"), Ok(Value::Number(4)));
    assert_eq!(from_binary(b"lee"), Ok(Value::List(Vec::new())));
}

#[test]
fn nested_lists() {
    let expected = Value::List(vec![
        Value::List(vec![]),
        Value::List(vec![Value::Number(1), Value::List(vec![text("x")])]),
    ]);
    assert_eq!(from_binary(b"lleli1el1:xeee"), Ok(expected));
}

#[test]
fn aggregate_steps() {
    let mut de = Deserializer::new(b"li1ei2ee");
    assert_eq!(de.peek_kind(), Ok(TokenKind::List));
    assert_eq!(de.begin_list(), Ok(()));
    assert_eq!(de.at_end(), Ok(false));
    assert_eq!(de.deserialize_i32(), Ok(1));
    assert_eq!(de.at_end(), Ok(false));
    assert_eq!(de.peek_kind(), Ok(TokenKind::Integer));
    assert_eq!(de.deserialize_i32(), Ok(2));
    assert_eq!(de.at_end(), Ok(true));
    assert_eq!(de.end(), Ok(()));
    assert_eq!(de.at_end(), Err(Error::ExpectedEnd));
    assert_eq!(de.end(), Err(Error::ExpectedEnd));
    assert_eq!(de.peek_kind(), Err(Error::Eof));
}

#[test]
fn a_reader_that_stops_early_meets_expected_end() {
    let mut de = Deserializer::new(b"l4:spam4:eggs4:hame");
    assert_eq!(de.begin_list(), Ok(()));
    assert_eq!(de.parse_str(), Ok("spam"));
    assert_eq!(de.parse_str(), Ok("eggs"));
    assert_eq!(de.end(), Err(Error::ExpectedEnd));
}

#[test]
fn a_list_or_a_dictionary_is_expected() {
    assert_eq!(Deserializer::new(b"i1e").begin_list(), Err(Error::ExpectedList));
    assert_eq!(Deserializer::new(b"de").begin_list(), Err(Error::ExpectedList));
    assert_eq!(Deserializer::new(b"").begin_list(), Err(Error::Eof));
    assert_eq!(Deserializer::new(b"le").begin_dictionary(), Err(Error::ExpectedDictionary));
    assert_eq!(Deserializer::new(b"3:foo").begin_dictionary(), Err(Error::ExpectedDictionary));
    assert_eq!(Deserializer::new(b"").begin_dictionary(), Err(Error::Eof));
    assert_eq!(Deserializer::new(b"de").begin_dictionary(), Ok(()));
}

#[test]
fn token_kinds() {
    assert_eq!(Deserializer::new(b"0:").peek_kind(), Ok(TokenKind::ByteString));
    assert_eq!(Deserializer::new(b"9:").peek_kind(), Ok(TokenKind::ByteString));
    assert_eq!(Deserializer::new(b"i1e").peek_kind(), Ok(TokenKind::Integer));
    assert_eq!(Deserializer::new(b"le").peek_kind(), Ok(TokenKind::List));
    assert_eq!(Deserializer::new(b"de").peek_kind(), Ok(TokenKind::Dictionary));
    assert_eq!(Deserializer::new(b"e").peek_kind(), Err(Error::Syntax));
    assert_eq!(Deserializer::new(b"-").peek_kind(), Err(Error::Syntax));
    assert_eq!(Deserializer::new(b":").peek_kind(), Err(Error::Syntax));
    assert_eq!(Deserializer::new(b"/").peek_kind(), Err(Error::Syntax));
}

#[test]
fn test_value_ref() {
    let content = b"d4:info4:lulwe";
    let decoded = from_binary_ref(content).unwrap();
    let info = match &decoded {
        ValueRef::Dictionary(fields) => fields.get("info").unwrap(),
        other => panic!("not a dictionary: {:?}", other),
    };
    println!("Info: {info:#?}");
    assert_eq!(info, &ValueRef::String("lulw"));

    let info_raw = serde_bencode::to_binary_ref(info).unwrap();
    println!("Raw: {:?}", std::str::from_utf8(&info_raw).unwrap());
    assert_eq!(info_raw, b"4:lulw");
}

#[test]
fn borrowing_values_alias_the_input() {
    let data = b"l4:spam2:\xFF\xFEe".to_vec();
    let decoded = from_binary_ref(&data).unwrap();
    match decoded {
        ValueRef::List(items) => {
            assert_eq!(items.len(), 2);
            match items[0] {
                ValueRef::String(s) => {
                    assert_eq!(s, "spam");
                    assert_eq!(s.as_ptr(), data[3..].as_ptr());
                }
                _ => panic!("not text"),
            }
            match items[1] {
                ValueRef::Bytes(b) => {
                    assert_eq!(b, b"\xFF\xFE");
                    assert_eq!(b.as_ptr(), data[9..].as_ptr());
                }
                _ => panic!("not bytes"),
            }
        }
        other => panic!("not a list: {:?}", other),
    }
}

#[test]
fn borrowing_values_decode_like_owning_ones() {
    assert_eq!(from_binary_ref(b"i-7e"), Ok(ValueRef::Number(-7)));
    assert_eq!(from_binary_ref(b"le"), Ok(ValueRef::List(vec![])));
    assert_eq!(from_binary_ref(b"de"), Ok(ValueRef::Dictionary(Dictionary::new())));
    assert_eq!(from_binary_ref(b"i-e"), Err(Error::Syntax));
    assert_eq!(from_binary_ref(b"4:asd"), Err(Error::Eof));
    let mut map = Dictionary::new();
    map.insert("b".to_string(), ValueRef::Number(2));
    map.insert("a".to_string(), ValueRef::List(vec![ValueRef::String("x")]));
    assert_eq!(from_binary_ref(b"d1:bi2e1:al1:xee"), Ok(ValueRef::Dictionary(map)));
}

#[test]
fn test_tuple() {
    let mut de = Deserializer::new(b"l4:spam4:eggse");
    assert_eq!(de.begin_list(), Ok(()));
    let first = de.parse_string();
    let second = de.parse_string();
    assert_eq!(de.end(), Ok(()));
    assert_eq!((first, second), (Ok("spam".to_string()), Ok("eggs".to_string())));
}

#[test]
fn test_bytes_list() {
    let mut de = Deserializer::new(b"l4:teste");
    assert_eq!(de.begin_list(), Ok(()));
    let mut items = Vec::new();
    while de.at_end() == Ok(false) {
        items.push(de.parse_bytes().unwrap());
    }
    assert_eq!(de.end(), Ok(()));
    assert_eq!(items, vec![&b"test"[..]]);
}

#[test]
fn test_list_in_dictionary() {
    let mut de = Deserializer::new(b"d4:spaml1:a1:bee");
    assert_eq!(de.begin_dictionary(), Ok(()));
    assert_eq!(de.parse_string(), Ok("spam".to_string()));
    assert_eq!(de.begin_list(), Ok(()));
    assert_eq!(de.parse_string(), Ok("a".to_string()));
    assert_eq!(de.parse_string(), Ok("b".to_string()));
    assert_eq!(de.at_end(), Ok(true));
    assert_eq!(de.end(), Ok(()));
    assert_eq!(de.at_end(), Ok(true));
    assert_eq!(de.end(), Ok(()));
}

#[test]
fn dictionary_entries_in_no_order() {
    let mut map = Dictionary::new();
    map.insert("one".to_string(), Value::Number(1));
    map.insert("two".to_string(), Value::Number(2));
    map.insert("three".to_string(), Value::Number(3));
    map.insert("four".to_string(), Value::Number(4));
    assert_eq!(
        from_binary(b"d3:onei1e3:twoi2e5:threei3e4:fouri4ee"),
        Ok(Value::Dictionary(map))
    );
}
