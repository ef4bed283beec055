use torr::json::write_as_json;
use torr::utils::{str_to_json, str_to_value, value_to_json};
use torr::value::{IntoValue, Value};

#[test]
fn test_string() {
    assert_eq!(str_to_json("4:spam"), "\"spam\"");
}

#[test]
fn test_integer() {
    assert_eq!(str_to_json("i4e"), "4");
    assert_eq!(str_to_json("i-4e"), "-4");
    assert_eq!(str_to_json("i0e"), "0");
}

#[test]
fn test_list() {
    assert_eq!(str_to_json("l4:spam3:egge"), "[\"spam\",\"egg\"]");
}

#[test]
fn test_dict() {
    assert_eq!(
        str_to_json("d4:spam3:egg5:spam24:egg2e"),
        "{\"spam\":\"egg\",\"spam2\":\"egg2\"}"
    );
}

#[test]
fn json_of_empty_containers() {
    assert_eq!(str_to_json("le"), "[]");
    assert_eq!(str_to_json("de"), "{}");
    assert_eq!(str_to_json("0:"), "\"\"");
}

#[test]
fn json_of_nested_values() {
    assert_eq!(
        str_to_json("d4:spaml1:ai-12ee3:numi1234567890ee"),
        "{\"spam\":[\"a\",-12],\"num\":1234567890}"
    );
}

#[test]
fn json_of_integer_extremes() {
    assert_eq!(str_to_json("i9223372036854775807e"), "9223372036854775807");
    assert_eq!(str_to_json("i-9223372036854775808e"), "-9223372036854775808");
    assert_eq!(str_to_json("i10e"), "10");
}

#[test]
fn json_escapes_quote_and_backslash() {
    assert_eq!(str_to_json("5:a\"b\\c"), "\"a\\\"b\\\\c\"");
}

#[test]
fn json_escapes_control_bytes() {
    assert_eq!(str_to_json("2:\n\u{1f}"), "\"\\u000a\\u001f\"");
}

#[test]
fn json_keeps_utf8_text() {
    assert_eq!(str_to_json("2:\u{e9}"), "\"\u{e9}\"");
}

#[test]
fn json_replaces_invalid_utf8() {
    let v = Value::String(vec![0x61, 0xff]);
    assert_eq!(value_to_json(&v), "\"a\u{fffd}\"");
}

#[test]
fn json_rendering_is_repeatable() {
    let v = str_to_value("d1:al1:bi3ee1:c1:de").unwrap();
    let first = value_to_json(&v);
    let second = value_to_json(&v);
    assert_eq!(first, second);
    let mut a: Vec<u8> = Vec::new();
    let mut b: Vec<u8> = Vec::new();
    write_as_json(&v, &mut a);
    write_as_json(&v, &mut b);
    assert_eq!(a, b);
}

#[test]
fn write_as_json_appends() {
    let mut out: Vec<u8> = b"x=".to_vec();
    write_as_json(&Value::Integer(-7), &mut out);
    assert_eq!(out, b"x=-7".to_vec());
}

#[test]
fn json_of_built_dictionary() {
    let pairs: [(&str, i64); 2] = [("b", 2), ("a", 1)];
    assert_eq!(value_to_json(&pairs[..].into_value()), "{\"b\":2,\"a\":1}");
}
