use bittorrent_starter_rust::cmd::decode::{decode, try_decode, DecodeError, Value};

fn s(v: &Value) -> &[u8] {
    match v {
        Value::Str(b) => b.as_slice(),
        _ => panic!("not a string"),
    }
}

#[test]
fn decode_string() {
    let (v, n) = decode(b"5:hello").unwrap();
    assert_eq!(s(&v), b"hello");
    assert_eq!(n, 7);
}

#[test]
fn decode_string_leaves_rest() {
    let (v, n) = decode(b"3:abcdef").unwrap();
    assert_eq!(s(&v), b"abc");
    assert_eq!(n, 5);
}

#[test]
fn decode_empty_string() {
    let (v, n) = decode(b"0:").unwrap();
    assert_eq!(s(&v), b"");
    assert_eq!(n, 2);
}

#[test]
fn decode_integer() {
    match decode(b"i52e").unwrap() {
        (Value::Int(n), 4) => assert_eq!(n, 52),
        _ => panic!("expected integer"),
    }
}

#[test]
fn decode_negative_integer() {
    match decode(b"i-52e").unwrap() {
        (Value::Int(n), 5) => assert_eq!(n, -52),
        _ => panic!("expected integer"),
    }
}

#[test]
fn decode_integer_limits() {
    match decode(b"i-9223372036854775808e").unwrap() {
        (Value::Int(n), _) => assert_eq!(n, i64::MIN),
        _ => panic!("expected integer"),
    }
    match decode(b"i9223372036854775807e").unwrap() {
        (Value::Int(n), _) => assert_eq!(n, i64::MAX),
        _ => panic!("expected integer"),
    }
    match decode(b"i+7e").unwrap() {
        (Value::Int(n), 4) => assert_eq!(n, 7),
        _ => panic!("expected integer"),
    }
}

#[test]
fn decode_integer_overflow() {
    assert!(matches!(decode(b"i9223372036854775808e"), Err(DecodeError::InvalidNumber)));
    assert!(matches!(decode(b"i-9223372036854775809e"), Err(DecodeError::InvalidNumber)));
}

#[test]
fn decode_invalid_integer() {
    assert!(matches!(decode(b"iabce"), Err(DecodeError::InvalidNumber)));
    assert!(matches!(decode(b"ie"), Err(DecodeError::InvalidNumber)));
    assert!(matches!(decode(b"i-e"), Err(DecodeError::InvalidNumber)));
}

#[test]
fn decode_missing_number_delimiter() {
    assert!(matches!(decode(b"i52"), Err(DecodeError::NumberDelimiterNotFound)));
}

#[test]
fn decode_missing_string_delimiter() {
    assert!(matches!(decode(b"5hello"), Err(DecodeError::StringDelimiterNotFound)));
}

#[test]
fn decode_invalid_length() {
    assert!(matches!(decode(b"5x:hello"), Err(DecodeError::InvalidLength)));
}

#[test]
fn decode_unhandled() {
    assert!(matches!(decode(b"x"), Err(DecodeError::Unhandled)));
    assert!(matches!(decode(b""), Err(DecodeError::Unhandled)));
}

#[test]
fn decode_list() {
    let (v, n) = decode(b"l5:helloi52ee").unwrap();
    assert_eq!(n, 13);
    match v {
        Value::List(items) => {
            assert_eq!(items.len(), 2);
            assert_eq!(s(&items[0]), b"hello");
            assert!(matches!(items[1], Value::Int(52)));
        }
        _ => panic!("expected list"),
    }
}

#[test]
fn decode_nested_list() {
    let (v, n) = decode(b"lli1eee").unwrap();
    assert_eq!(n, 7);
    match v {
        Value::List(items) => match &items[0] {
            Value::List(inner) => assert!(matches!(inner[0], Value::Int(1))),
            _ => panic!("expected inner list"),
        },
        _ => panic!("expected list"),
    }
}

#[test]
fn decode_dict() {
    let (v, n) = decode(b"d3:foo3:bar5:helloi52ee").unwrap();
    assert_eq!(n, 23);
    match v {
        Value::Dict(entries) => {
            assert_eq!(entries.len(), 2);
            assert_eq!(entries[0].0, b"foo");
            assert_eq!(s(&entries[0].1), b"bar");
            assert_eq!(entries[1].0, b"hello");
            assert!(matches!(entries[1].1, Value::Int(52)));
        }
        _ => panic!("expected dict"),
    }
}

#[test]
fn decode_dict_invalid_key() {
    assert!(matches!(decode(b"di1e3:fooe"), Err(DecodeError::InvalidDictKey)));
}

#[test]
fn decode_list_error_propagates() {
    assert!(matches!(decode(b"li5x"), Err(DecodeError::NumberDelimiterNotFound)));
}

#[test]
fn decode_unterminated_list_is_refused() {
    assert!(try_decode(b"li1e").is_none());
    assert!(try_decode(b"d").is_none());
}

#[test]
fn decode_string_past_end_is_refused() {
    assert!(try_decode(b"10:abc").is_none());
}

#[test]
fn decode_string_inside_character_is_refused() {
    // "1:é" slices the two-byte character in half.
    assert!(try_decode("1:é".as_bytes()).is_none());
    let (v, n) = try_decode("2:é".as_bytes()).unwrap().unwrap();
    assert_eq!(s(&v), "é".as_bytes());
    assert_eq!(n, 4);
}

#[test]
fn decode_dict_duplicate_key_keeps_last_value() {
    let (v, n) = decode(b"d1:ai1e1:bi2e1:ai3ee").unwrap();
    assert_eq!(n, 20);
    match v {
        Value::Dict(entries) => {
            assert_eq!(entries.len(), 2);
            assert_eq!(entries[0].0, b"a");
            assert!(matches!(entries[0].1, Value::Int(3)));
            assert_eq!(entries[1].0, b"b");
            assert!(matches!(entries[1].1, Value::Int(2)));
        }
        _ => panic!("expected dict"),
    }
}

#[test]
fn decode_encoded_value_then_rest() {
    // d 3:key l i-7e 3:abc e 4:none d e e, followed by unrelated text.
    let encoded = b"d3:keyli-7e3:abce4:nonedeerest";
    let (v, n) = decode(encoded).unwrap();
    assert_eq!(n, 26);
    assert_eq!(&encoded[n..], b"rest");
    match v {
        Value::Dict(entries) => {
            assert_eq!(entries.len(), 2);
            assert_eq!(entries[0].0, b"key");
            match &entries[0].1 {
                Value::List(items) => {
                    assert_eq!(items.len(), 2);
                    assert!(matches!(items[0], Value::Int(-7)));
                    assert_eq!(s(&items[1]), b"abc");
                }
                _ => panic!("expected list"),
            }
            assert_eq!(entries[1].0, b"none");
            assert!(matches!(&entries[1].1, Value::Dict(e) if e.is_empty()));
        }
        _ => panic!("expected dict"),
    }
}

#[test]
fn decode_dict_orders_keys() {
    let (v, n) = decode(b"d1:bi1e1:ai2ee").unwrap();
    assert_eq!(n, 14);
    match v {
        Value::Dict(entries) => {
            assert_eq!(entries.len(), 2);
            assert_eq!(entries[0].0, b"a");
            assert!(matches!(entries[0].1, Value::Int(2)));
            assert_eq!(entries[1].0, b"b");
            assert!(matches!(entries[1].1, Value::Int(1)));
        }
        _ => panic!("expected dict"),
    }
    let (v, _) = decode(b"d2:ab0:1:a0:2:aa0:e").unwrap();
    match v {
        Value::Dict(entries) => {
            let keys: Vec<&[u8]> = entries.iter().map(|(k, _)| k.as_slice()).collect();
            assert_eq!(keys, vec![&b"a"[..], &b"aa"[..], &b"ab"[..]]);
        }
        _ => panic!("expected dict"),
    }
}
