use netcode::common::SerializableMessage;

#[test]
fn string_to_bytes_is_length_then_utf8() {
    let b = String::from("hé").to_bytes().unwrap();
    assert_eq!(b, vec![3, 0, 0, 0, 0, 0, 0, 0, b'h', 0xc3, 0xa9]);
    let empty = String::new().to_bytes().unwrap();
    assert_eq!(empty, vec![0, 0, 0, 0, 0, 0, 0, 0]);
}

#[test]
fn string_bytes_round_trip() {
    for s in ["", "hello", "echo from server: hi", "ünïcödé ✓"] {
        let b = s.to_string().to_bytes().unwrap();
        assert_eq!(String::from_bytes(&b), Ok(s.to_string()));
    }
}

#[test]
fn string_from_bytes_rejects_short_input() {
    assert_eq!(String::from_bytes(&[1, 0, 0]), Err(()));
    assert_eq!(String::from_bytes(&[5, 0, 0, 0, 0, 0, 0, 0, b'a', b'b']), Err(()));
}

#[test]
fn string_from_bytes_rejects_invalid_utf8() {
    assert_eq!(String::from_bytes(&[1, 0, 0, 0, 0, 0, 0, 0, 0xff]), Err(()));
}

#[test]
fn string_from_bytes_leaves_trailing_bytes_unread() {
    assert_eq!(String::from_bytes(&[2, 0, 0, 0, 0, 0, 0, 0, b'o', b'k', b'!', b'?']), Ok("ok".to_string()));
}

#[test]
fn string_to_json_quotes_and_escapes() {
    let j = "a\"b\\c\nd\u{1}/".to_string().to_json().unwrap();
    assert_eq!(j, "\"a\\\"b\\\\c\\nd\\u0001/\"");
}

#[test]
fn string_json_round_trip() {
    for s in ["", "plain", "tab\there", "quote\"", "ünïcödé"] {
        let j = s.to_string().to_json().unwrap();
        assert_eq!(String::from_json(&j), Ok(s.to_string()));
    }
}

#[test]
fn string_json_round_trip_through_every_escape() {
    let s = "\u{8}\u{c}\r\n\t\u{0}\u{1f}\u{7f}\\\"/".to_string();
    let j = s.to_json().unwrap();
    assert_eq!(j, "\"\\b\\f\\r\\n\\t\\u0000\\u001f\u{7f}\\\\\\\"/\"");
    assert_eq!(String::from_json(&j), Ok(s));
}

#[test]
fn string_from_json_rejects_non_strings() {
    assert_eq!(String::from_json("42"), Err(()));
    assert_eq!(String::from_json("\"unterminated"), Err(()));
}
