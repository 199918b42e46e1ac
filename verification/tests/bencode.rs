use bittorrent::bencode::decode::{decode_object, try_decode_object};
use bittorrent::bencode::object::{
    decimal_string, extract_byte_array, extract_dict, extract_list, extract_num, extract_str, Dictionary,
    ExtractError, Object, ObjectType,
};

fn dict_of(o: &Object) -> &Dictionary {
    match o.object_type() {
        ObjectType::Dictionary(d) => d,
        _ => panic!("not a dictionary"),
    }
}

#[test]
fn decode_number_works() {
    let o = decode_object(b"i123456789e");
    assert!(matches!(o.object_type(), ObjectType::Number(123456789)));
    assert_eq!(o.bytes(), b"i123456789e");
}

#[test]
fn decode_number_zero_works() {
    let o = decode_object(b"i0e");
    assert!(matches!(o.object_type(), ObjectType::Number(0)));
}

#[test]
fn decode_number_negative_works() {
    let o = decode_object(b"i-123456789e");
    assert!(matches!(o.object_type(), ObjectType::Number(-123456789)));
}

#[test]
fn decode_number_extremes() {
    assert!(matches!(decode_object(b"i-9223372036854775808e").object_type(), ObjectType::Number(i64::MIN)));
    assert!(matches!(decode_object(b"i9223372036854775807e").object_type(), ObjectType::Number(i64::MAX)));
    assert!(matches!(decode_object(b"i+7e").object_type(), ObjectType::Number(7)));
    assert!(matches!(decode_object(b"i-0e").object_type(), ObjectType::Number(0)));
    assert!(try_decode_object(b"i9223372036854775808e").is_none());
    assert!(try_decode_object(b"i-9223372036854775809e").is_none());
}

#[test]
fn decode_number_with_leading_zeros_is_refused() {
    assert!(try_decode_object(b"i0123456789e").is_none());
    assert!(try_decode_object(b"i00e").is_none());
}

#[test]
fn decode_number_malformed_is_refused() {
    assert!(try_decode_object(b"").is_none());
    assert!(try_decode_object(b"123456789e").is_none());
    assert!(try_decode_object(b"i").is_none());
    assert!(try_decode_object(b"ie").is_none());
    assert!(try_decode_object(b"i123456789").is_none());
    assert!(try_decode_object(b"i123x56789e").is_none());
    assert!(try_decode_object(b"i-e").is_none());
    assert!(try_decode_object(b"x").is_none());
}

#[test]
fn decode_byte_array_works() {
    let o = decode_object(b"14:example string");
    match o.object_type() {
        ObjectType::ByteArray(b) => assert_eq!(b.as_slice(), b"example string"),
        _ => panic!("not a byte array"),
    }
    assert_eq!(o.bytes(), b"14:example string");
}

#[test]
fn decode_byte_array_zero_length_works() {
    let o = decode_object(b"0:");
    match o.object_type() {
        ObjectType::ByteArray(b) => assert!(b.is_empty()),
        _ => panic!("not a byte array"),
    }
}

#[test]
fn decode_byte_array_ignores_what_follows() {
    let o = decode_object(b"3:abcdef");
    match o.object_type() {
        ObjectType::ByteArray(b) => assert_eq!(b.as_slice(), b"abc"),
        _ => panic!("not a byte array"),
    }
    assert_eq!(o.bytes(), b"3:abc");
}

#[test]
fn decode_byte_array_malformed_is_refused() {
    assert!(try_decode_object(b"16:example string").is_none());
    assert!(try_decode_object(b"10:abc").is_none());
    assert!(try_decode_object(b"1x:example string").is_none());
    assert!(try_decode_object(b"014:example string").is_none());
    assert!(try_decode_object(b"14example string").is_none());
}

#[test]
fn decode_list_works() {
    let o = decode_object(b"li1e3:abcli2eee");
    match o.object_type() {
        ObjectType::List(l) => {
            assert_eq!(l.len(), 3);
            assert!(matches!(l[0].object_type(), ObjectType::Number(1)));
            assert_eq!(l[1].bytes(), b"3:abc");
            assert_eq!(l[2].bytes(), b"li2ee");
        }
        _ => panic!("not a list"),
    }
    assert_eq!(o.bytes(), b"li1e3:abcli2eee");
}

#[test]
fn decode_list_unterminated_at_end_of_input() {
    let o = decode_object(b"li1ei2e");
    match o.object_type() {
        ObjectType::List(l) => assert_eq!(l.len(), 2),
        _ => panic!("not a list"),
    }
    assert_eq!(o.bytes(), b"li1ei2e");
}

#[test]
fn decode_dictionary_works() {
    let o = decode_object(b"d3:bari7e3:foo3:baze");
    let d = dict_of(&o);
    assert_eq!(extract_num(d, b"bar").unwrap(), 7);
    assert_eq!(extract_byte_array(d, b"foo").unwrap(), b"baz".to_vec());
    assert_eq!(d.get(b"i").map(|v| v.bytes().to_vec()), None);
    assert_eq!(o.bytes(), b"d3:bari7e3:foo3:baze");
}

#[test]
fn decode_dictionary_later_key_wins() {
    let o = decode_object(b"d1:ai1e1:ai2ee");
    let d = dict_of(&o);
    assert_eq!(extract_num(d, b"a").unwrap(), 2);
}

#[test]
fn decode_dictionary_key_without_digit_start() {
    // a key is read up to ':' and its length may carry a '+'
    let o = decode_object(b"d+1:ai5ee");
    assert_eq!(extract_num(dict_of(&o), b"a").unwrap(), 5);
    assert!(try_decode_object(b"d:ai5ee").is_none());
    assert!(try_decode_object(b"di1ei2ee").is_none());
}

#[test]
fn nested_object_keeps_its_bytes() {
    let o = decode_object(b"d4:infod4:name1:xee");
    let d = dict_of(&o);
    assert_eq!(d.get(b"info").unwrap().bytes(), b"d4:name1:xe");
    let info = extract_dict(d, b"info").unwrap();
    assert_eq!(extract_str(info, b"name").unwrap(), "x");
}

#[test]
fn extract_errors() {
    let o = decode_object(b"d1:ni1e1:s1:x1:b1:\xffe");
    let d = dict_of(&o);
    match extract_num(d, b"missing") {
        Err(ExtractError::MissingKey(k)) => assert_eq!(k, "missing"),
        other => panic!("unexpected {:?}", other),
    }
    match extract_num(d, b"s") {
        Err(ExtractError::InvalidKey(k, t)) => {
            assert_eq!(k, "s");
            assert_eq!(t, "number");
        }
        other => panic!("unexpected {:?}", other),
    }
    match extract_byte_array(d, b"n") {
        Err(ExtractError::InvalidKey(_, t)) => assert_eq!(t, "byte array"),
        other => panic!("unexpected {:?}", other),
    }
    match extract_list(d, b"n") {
        Err(ExtractError::InvalidKey(_, t)) => assert_eq!(t, "list"),
        other => panic!("unexpected {:?}", other),
    }
    match extract_dict(d, b"n") {
        Err(ExtractError::InvalidKey(_, t)) => assert_eq!(t, "dictionary"),
        other => panic!("unexpected {:?}", other),
    }
    assert!(matches!(extract_str(d, b"b"), Err(ExtractError::InvalidUtf8(_))));
    assert_eq!(extract_str(d, b"s").unwrap(), "x");
    match extract_num(d, b"\xff") {
        Err(ExtractError::MissingKey(k)) => assert_eq!(k, "\u{fffd}"),
        other => panic!("unexpected {:?}", other),
    }
}

#[test]
fn extract_error_messages() {
    assert_eq!(ExtractError::MissingKey("info".to_string()).message(), "Missing key 'info'");
    assert_eq!(
        ExtractError::InvalidKey("pieces".to_string(), "byte array".to_string()).message(),
        "Key 'pieces' is not a byte array"
    );
    assert_eq!(
        ExtractError::InvalidPiecesLength(45, 20).message(),
        "Input length (45) is not a multiple of 20"
    );
    let utf8 = String::from_utf8(vec![0xff]).unwrap_err();
    let text = utf8.to_string();
    let e: ExtractError = utf8.into();
    assert!(matches!(e, ExtractError::InvalidUtf8(_)));
    assert_eq!(e.message(), text);
}

#[test]
fn decimal_numerals() {
    assert_eq!(decimal_string(0), "0");
    assert_eq!(decimal_string(7), "7");
    assert_eq!(decimal_string(10), "10");
    assert_eq!(decimal_string(1234567890), "1234567890");
    assert_eq!(decimal_string(u64::MAX), u64::MAX.to_string());
}

#[test]
fn dictionary_insert_then_get() {
    let mut d = Dictionary::new();
    d.insert(b"k".to_vec(), decode_object(b"i1e"));
    d.insert(b"j".to_vec(), decode_object(b"i2e"));
    d.insert(b"k".to_vec(), decode_object(b"i3e"));
    assert_eq!(d.get(b"k").unwrap().bytes(), b"i3e");
    assert_eq!(d.get(b"j").unwrap().bytes(), b"i2e");
    assert!(d.get(b"x").is_none());
}
