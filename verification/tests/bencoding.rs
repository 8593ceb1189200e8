use bittorrent::bencode::{
    decode_bencoded_value, try_decode_bencoded_value, DecodeError, Value,
};

fn text(s: &str) -> Value {
    Value::Text(s.to_string())
}

#[test]
fn decode_text() {
    assert_eq!(decode_bencoded_value("5:hello"), (text("hello"), ""));
    assert_eq!(decode_bencoded_value("5:hello world"), (text("hello"), " world"));
    assert_eq!(decode_bencoded_value("0:"), (text(""), ""));
    assert_eq!(decode_bencoded_value("05:hello"), (text("hello"), ""));
    assert_eq!(decode_bencoded_value("2:\u{e9}x"), (text("\u{e9}"), "x"));
}

#[test]
fn decode_integer() {
    assert_eq!(decode_bencoded_value("i45e"), (Value::Integer(45), ""));
    assert_eq!(decode_bencoded_value("i-45e5:x"), (Value::Integer(-45), "5:x"));
    assert_eq!(decode_bencoded_value("i+7e"), (Value::Integer(7), ""));
    assert_eq!(decode_bencoded_value("i9223372036854775807e"), (Value::Integer(i64::MAX), ""));
    assert_eq!(decode_bencoded_value("i-9223372036854775808e"), (Value::Integer(i64::MIN), ""));
}

#[test]
fn decode_nothing() {
    for s in [
        "", "x", "ie", "i-e", "i12", "i1x2e", "i9223372036854775808e", "i-9223372036854775809e",
        "5hello", "5x:hello", "99999999999999999999:a", "e", ":",
    ] {
        assert_eq!(decode_bencoded_value(s), (Value::Null, s));
    }
}

#[test]
fn decode_list() {
    let (value, rest) = decode_bencoded_value("l5:helloi52ee");
    assert_eq!(value, Value::List(vec![text("hello"), Value::Integer(52)]));
    assert_eq!(rest, "");
    assert_eq!(decode_bencoded_value("lei1e"), (Value::List(vec![]), "i1e"));
    assert_eq!(
        decode_bencoded_value("llelee!"),
        (Value::List(vec![Value::List(vec![]), Value::List(vec![])]), "!"),
    );
}

#[test]
fn decode_dictionary() {
    let (value, rest) = decode_bencoded_value("d3:foo3:bar5:helloi52ee");
    assert_eq!(
        value,
        Value::Dictionary(vec![
            ("foo".to_string(), text("bar")),
            ("hello".to_string(), Value::Integer(52)),
        ]),
    );
    assert_eq!(rest, "");
    assert_eq!(decode_bencoded_value("de"), (Value::Dictionary(vec![]), ""));
}

#[test]
fn decode_dictionary_keeps_the_last_value() {
    let (value, _) = decode_bencoded_value("d1:ai1e1:bi2e1:ai3ee");
    assert_eq!(
        value,
        Value::Dictionary(vec![
            ("a".to_string(), Value::Integer(3)),
            ("b".to_string(), Value::Integer(2)),
        ]),
    );
}

#[test]
fn decode_errors() {
    assert_eq!(try_decode_bencoded_value("6:hello"), Err(DecodeError::TextOutOfBounds));
    assert_eq!(try_decode_bencoded_value("1:\u{e9}"), Err(DecodeError::TextOutOfBounds));
    assert_eq!(try_decode_bencoded_value("l"), Err(DecodeError::Unterminated));
    assert_eq!(try_decode_bencoded_value("li1e"), Err(DecodeError::Unterminated));
    assert_eq!(try_decode_bencoded_value("d1:ai1e"), Err(DecodeError::Unterminated));
    assert_eq!(try_decode_bencoded_value("di1ei2ee"), Err(DecodeError::KeyNotText));
    assert_eq!(try_decode_bencoded_value("d1:axe"), Err(DecodeError::KeyNotText));
    assert_eq!(try_decode_bencoded_value("lxe"), Err(DecodeError::Endless));
    assert_eq!(try_decode_bencoded_value("ll9:ae"), Err(DecodeError::TextOutOfBounds));
}

#[test]
fn decode_leaves_the_end() {
    let s = "d1:al1:bi-3eee5:tail";
    let (value, rest) = try_decode_bencoded_value(s).unwrap();
    assert_eq!(
        value,
        Value::Dictionary(vec![(
            "a".to_string(),
            Value::List(vec![text("b"), Value::Integer(-3)]),
        )]),
    );
    assert!(s.ends_with(rest));
    assert_eq!(rest, "5:tail");
}
