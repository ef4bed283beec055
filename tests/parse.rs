use torr::parse::{try_parse_value, ParseError};
use torr::utils::str_to_value;
use torr::value::Value;

fn s(text: &str) -> Value {
    Value::String(text.bytes().collect::<Vec<u8>>())
}

#[test]
fn test_parsing_of_string() {
    assert_eq!(
        str_to_value("4:spam"),
        Ok(Value::String(
            "spam".bytes().into_iter().collect::<Vec<u8>>()
        ))
    )
}

#[test]
fn test_parsing_of_integer() {
    assert_eq!(str_to_value("i0e"), Ok(Value::Integer(0)));
    assert_eq!(str_to_value("i-0e"), Err(ParseError::NegativeZeroOccurred));
    assert_eq!(str_to_value("i-42e"), Ok(Value::Integer(-42)));
    assert_eq!(str_to_value("i42e"), Ok(Value::Integer(42)));
    assert_eq!(str_to_value("i42"), Err(ParseError::IntegerSuffixExpected));
    assert_eq!(str_to_value("i42:"), Err(ParseError::IntegerSuffixExpected));
}

#[test]
fn test_parsing_of_lists() {
    assert_eq!(
        str_to_value("l4:spam4:eggse"),
        Ok(Value::List(
            ["spam", "eggs"]
                .into_iter()
                .map(|str| Value::String(str.bytes().into_iter().collect::<Vec<u8>>()))
                .collect::<Vec<_>>()
        ))
    )
}

#[test]
fn test_parsing_of_dictionaries() {
    assert_eq!(
        str_to_value("d3:cow3:moo4:spam4:eggse"),
        Ok(Value::Dictionary(
            [("cow", "moo"), ("spam", "eggs"),]
                .into_iter()
                .map(|(k, v)| {
                    (
                        Value::String(k.bytes().into_iter().collect::<Vec<u8>>()),
                        Value::String(v.bytes().into_iter().collect::<Vec<u8>>()),
                    )
                })
                .collect::<Vec<_>>()
        ))
    )
}

#[test]
fn decodes_round_trip_examples() {
    assert_eq!(str_to_value("i4e"), Ok(Value::Integer(4)));
    assert_eq!(str_to_value("i-4e"), Ok(Value::Integer(-4)));
    assert_eq!(str_to_value("0:"), Ok(s("")));
    assert_eq!(str_to_value("le"), Ok(Value::List(vec![])));
    assert_eq!(str_to_value("de"), Ok(Value::Dictionary(vec![])));
    assert_eq!(
        str_to_value("d4:spaml1:a1:bee"),
        Ok(Value::Dictionary(vec![(
            s("spam"),
            Value::List(vec![s("a"), s("b")])
        )]))
    );
}

#[test]
fn decodes_leading_zeros_and_ignores_trailing_bytes() {
    assert_eq!(str_to_value("04:spam"), Ok(s("spam")));
    assert_eq!(str_to_value("i007e"), Ok(Value::Integer(7)));
    assert_eq!(str_to_value("i1eXYZ"), Ok(Value::Integer(1)));
}

#[test]
fn decodes_binary_strings() {
    let input: Vec<u8> = vec![b'3', b':', 0x00, 0xff, b'e'];
    assert_eq!(try_parse_value(&input), Ok(Value::String(vec![0x00, 0xff, b'e'])));
}

#[test]
fn decodes_integer_limits() {
    assert_eq!(str_to_value("i9223372036854775807e"), Ok(Value::Integer(i64::MAX)));
    assert_eq!(str_to_value("i-9223372036854775808e"), Ok(Value::Integer(i64::MIN)));
}

#[test]
fn rejects_integer_overflow() {
    assert_eq!(str_to_value("i9223372036854775808e"), Err(ParseError::IntegerOverflow));
    assert_eq!(str_to_value("i-9223372036854775809e"), Err(ParseError::IntegerOverflow));
    assert_eq!(
        str_to_value("i99999999999999999999999999999e"),
        Err(ParseError::IntegerOverflow)
    );
}

#[test]
fn rejects_missing_digits() {
    assert_eq!(str_to_value("ie"), Err(ParseError::UnsignedIntegerExpected));
    assert_eq!(str_to_value("i-e"), Err(ParseError::UnsignedIntegerExpected));
    assert_eq!(str_to_value("i"), Err(ParseError::UnsignedIntegerExpected));
}

#[test]
fn rejects_missing_colon() {
    assert_eq!(str_to_value("4spam"), Err(ParseError::ColonExpected));
    assert_eq!(str_to_value("4"), Err(ParseError::ColonExpected));
}

#[test]
fn rejects_short_string() {
    assert_eq!(str_to_value("10:abc"), Err(ParseError::UnexpectedEndOfInput));
    assert_eq!(
        str_to_value("99999999999999999999999:abc"),
        Err(ParseError::UnexpectedEndOfInput)
    );
}

#[test]
fn rejects_empty_input_and_missing_values() {
    assert_eq!(str_to_value(""), Err(ParseError::UnexpectedEndOfInput));
    assert_eq!(str_to_value("l4:spam"), Err(ParseError::UnexpectedEndOfInput));
    assert_eq!(str_to_value("l"), Err(ParseError::UnexpectedEndOfInput));
    assert_eq!(str_to_value("d3:cow"), Err(ParseError::UnexpectedEndOfInput));
}

#[test]
fn rejects_unclosed_dictionary() {
    assert_eq!(str_to_value("d"), Err(ParseError::ExpectedDictionaryKeyOrTerminator));
    assert_eq!(
        str_to_value("d3:cow3:moo"),
        Err(ParseError::ExpectedDictionaryKeyOrTerminator)
    );
}

#[test]
fn rejects_negative_zero() {
    assert_eq!(str_to_value("i-0e"), Err(ParseError::NegativeZeroOccurred));
    assert_eq!(str_to_value("i-00e"), Err(ParseError::NegativeZeroOccurred));
}

#[test]
fn rejects_integer_without_suffix() {
    assert_eq!(str_to_value("i42x"), Err(ParseError::IntegerSuffixExpected));
}

#[test]
fn rejects_unknown_prefix() {
    assert_eq!(str_to_value("x"), Err(ParseError::UnrecognizedPrefix));
    assert_eq!(str_to_value("l-e"), Err(ParseError::UnrecognizedPrefix));
}

#[test]
fn rejects_non_string_key() {
    assert_eq!(str_to_value("dli1ee1:ae"), Err(ParseError::DictionaryKeyMustBeString));
    assert_eq!(str_to_value("di1e1:ae"), Err(ParseError::DictionaryKeyMustBeString));
}
