use json_tokenizer::tokenizer::CharSource;
use json_tokenizer::tokenizer::JsonValue;
use json_tokenizer::tokenizer::TokenizedError;
use json_tokenizer::tokenizer::read_and_tokenized_char;
use json_tokenizer::tokenizer::tokenized;

fn source_from_str(text: &str) -> CharSource {
    CharSource::new(text.as_bytes().to_vec())
}

fn number(text: &str) -> JsonValue {
    JsonValue::Number(text.to_string())
}

fn string(text: &str) -> JsonValue {
    JsonValue::String(text.to_string())
}

fn entry(key: &str, value: JsonValue) -> (String, JsonValue) {
    (key.to_string(), value)
}

#[test]
pub fn test_tokenized_null() {
    let input = "null";
    let mut reader = source_from_str(input);

    assert_eq!(JsonValue::NullValue, tokenized(&mut reader, None).unwrap().result);
}

#[test]
pub fn test_tokenized_with_spaces_null() {
    let input = "   null";
    let mut reader = source_from_str(input);

    assert_eq!(JsonValue::NullValue, tokenized(&mut reader, None).unwrap().result);
}

#[test]
pub fn test_tokenized_true() {
    let input = "true";
    let mut reader = source_from_str(input);

    assert_eq!(JsonValue::TrueValue, tokenized(&mut reader, None).unwrap().result);
}

#[test]
pub fn test_tokenized_false() {
    let input = "false";
    let mut reader = source_from_str(input);

    assert_eq!(JsonValue::FalseValue, tokenized(&mut reader, None).unwrap().result);
}

#[test]
pub fn test_tokenized_array() {
    let input = "[1, 2, \"haha\", \"hoho\", true]";
    let mut reader = source_from_str(input);

    assert_eq!(
        JsonValue::Array(vec![
            number("1"),
            number("2"),
            string("haha"),
            string("hoho"),
            JsonValue::TrueValue
        ]),
        tokenized(&mut reader, None).unwrap().result
    );
}

#[test]
pub fn test_tokenized_empty_array() {
    let input = "[ ]";
    let mut reader = source_from_str(input);

    assert_eq!(JsonValue::Array(vec![]), tokenized(&mut reader, None).unwrap().result);
}

#[test]
pub fn test_tokenized_nested_array() {
    let input = "[1, 2, \"haha\", [\"f\", \"w\", 3], 4]";
    let mut reader = source_from_str(input);

    assert_eq!(
        JsonValue::Array(vec![
            number("1"),
            number("2"),
            string("haha"),
            JsonValue::Array(vec![string("f"), string("w"), number("3")]),
            number("4"),
        ]),
        tokenized(&mut reader, None).unwrap().result
    );
}

#[test]
pub fn test_tokenized_object() {
    let input = "{ \"ok\": true, \"message\": \"haha\", \"code\": 333}";
    let mut reader = source_from_str(input);

    assert_eq!(
        JsonValue::Object(vec![
            entry("ok", JsonValue::TrueValue),
            entry("message", string("haha")),
            entry("code", number("333")),
        ]),
        tokenized(&mut reader, None).unwrap().result
    );
}

#[test]
pub fn test_tokenized_empty_object() {
    let input = "{}";
    let mut reader = source_from_str(input);

    assert_eq!(JsonValue::Object(vec![]), tokenized(&mut reader, None).unwrap().result);
}

#[test]
pub fn test_tokenized_nested_object() {
    let input = "{ \"ok\": true, \"message\": \"haha\", \"data\": {\"a\":  \"b\"} }";
    let mut reader = source_from_str(input);

    assert_eq!(
        JsonValue::Object(vec![
            entry("ok", JsonValue::TrueValue),
            entry("message", string("haha")),
            entry("data", JsonValue::Object(vec![entry("a", string("b"))])),
        ]),
        tokenized(&mut reader, None).unwrap().result
    );
}

#[test]
pub fn test_tokenized_err() {
    let input = "nxll";
    let mut reader = source_from_str(input);

    assert_eq!(Err(TokenizedError::Invalid), tokenized(&mut reader, None));
}

#[test]
pub fn test_tokenized_string() {
    let input = "\"hello world\"";
    let mut reader = source_from_str(input);

    assert_eq!(string("hello world"), tokenized(&mut reader, None).unwrap().result);
}

#[test]
pub fn test_tokenized_number_integer() {
    let input = "123451";
    let mut reader = source_from_str(input);

    let value = tokenized(&mut reader, None).unwrap().result;
    assert_eq!(number("123451"), value);
    match value {
        JsonValue::Number(text) => assert_eq!(123451.0, text.parse::<f64>().unwrap()),
        _ => panic!("expected a number"),
    }
}

#[test]
pub fn test_tokenized_number_float() {
    let input = "123.451";
    let mut reader = source_from_str(input);

    let value = tokenized(&mut reader, None).unwrap().result;
    assert_eq!(number("123.451"), value);
    match value {
        JsonValue::Number(text) => assert_eq!(123.451, text.parse::<f64>().unwrap()),
        _ => panic!("expected a number"),
    }
}

#[test]
pub fn test_tokenized_number_exponent_lower() {
    let input = "123e3";
    let mut reader = source_from_str(input);

    let value = tokenized(&mut reader, None).unwrap().result;
    assert_eq!(number("123e3"), value);
    match value {
        JsonValue::Number(text) => assert_eq!(123000.0, text.parse::<f64>().unwrap()),
        _ => panic!("expected a number"),
    }
}

#[test]
pub fn test_tokenized_number_exponent_upper() {
    let input = "1E4";
    let mut reader = source_from_str(input);

    let value = tokenized(&mut reader, None).unwrap().result;
    assert_eq!(number("1E4"), value);
    match value {
        JsonValue::Number(text) => assert_eq!(10000.0, text.parse::<f64>().unwrap()),
        _ => panic!("expected a number"),
    }
}

#[test]
pub fn test_tokenized_number_minus() {
    let input = "-123.451";
    let mut reader = source_from_str(input);

    let value = tokenized(&mut reader, None).unwrap().result;
    assert_eq!(number("-123.451"), value);
    match value {
        JsonValue::Number(text) => assert_eq!(-123.451, text.parse::<f64>().unwrap()),
        _ => panic!("expected a number"),
    }
}

#[test]
pub fn test_tokenized_char_normal_char() {
    let input = "multiple_char";
    let mut reader = source_from_str(input);

    assert_eq!(Ok('m'), read_and_tokenized_char(&mut reader));
    assert_eq!(Ok('u'), read_and_tokenized_char(&mut reader));
}

#[test]
pub fn test_tokenized_char_end_of_string() {
    let input = "\"";
    let mut reader = source_from_str(input);

    assert_eq!(Err(TokenizedError::EndOfString), read_and_tokenized_char(&mut reader));
}

#[test]
pub fn test_tokenized_char_escaped_quote() {
    let mut reader = source_from_str("\\\"something");
    assert_eq!(Ok('"'), read_and_tokenized_char(&mut reader));
    assert_eq!(Ok('s'), read_and_tokenized_char(&mut reader));
}

#[test]
pub fn test_tokenized_char_escaped_slash() {
    let mut reader = source_from_str("\\/something");
    assert_eq!(Ok('/'), read_and_tokenized_char(&mut reader));
    assert_eq!(Ok('s'), read_and_tokenized_char(&mut reader));
}

#[test]
pub fn test_tokenized_char_escaped_backslash() {
    let mut reader = source_from_str("\\\\something");
    assert_eq!(Ok('\\'), read_and_tokenized_char(&mut reader));
    assert_eq!(Ok('s'), read_and_tokenized_char(&mut reader));
}

#[test]
pub fn test_tokenized_char_escaped_form_feed() {
    let mut reader = source_from_str("\\fsomething");
    assert_eq!(Ok('\u{000C}'), read_and_tokenized_char(&mut reader));
    assert_eq!(Ok('s'), read_and_tokenized_char(&mut reader));
}

#[test]
pub fn test_tokenized_char_escaped_newline() {
    let mut reader = source_from_str("\\nsomething");
    assert_eq!(Ok('\n'), read_and_tokenized_char(&mut reader));
    assert_eq!(Ok('s'), read_and_tokenized_char(&mut reader));
}

#[test]
pub fn test_tokenized_char_escaped_carriage_return() {
    let mut reader = source_from_str("\\rsomething");
    assert_eq!(Ok('\u{000D}'), read_and_tokenized_char(&mut reader));
    assert_eq!(Ok('s'), read_and_tokenized_char(&mut reader));
}

#[test]
pub fn test_tokenized_char_escaped_tab() {
    let mut reader = source_from_str("\\tsomething");
    assert_eq!(Ok('\u{0009}'), read_and_tokenized_char(&mut reader));
    assert_eq!(Ok('s'), read_and_tokenized_char(&mut reader));
}

#[test]
pub fn test_tokenized_unicode_char() {
    let input = "\\u004Dx";
    let mut reader = source_from_str(input);

    assert_eq!(Ok('M'), read_and_tokenized_char(&mut reader));
    assert_eq!(Ok('x'), read_and_tokenized_char(&mut reader));
}

#[test]
pub fn test_tokenized_invalid_escaped() {
    let input = "\\x";
    let mut reader = source_from_str(input);

    assert_eq!(Err(TokenizedError::InvalidChar), read_and_tokenized_char(&mut reader));
}

#[test]
pub fn test_tokenized_string_with_escaped_quote() {
    let input = "\"\\\"something\"";
    let mut reader = source_from_str(input);

    assert_eq!(string("\"something"), tokenized(&mut reader, None).unwrap().result);
}

#[test]
pub fn test_tokenized_empty_input() {
    let mut reader = source_from_str("");

    assert_eq!(Err(TokenizedError::Invalid), tokenized(&mut reader, None));
}

#[test]
pub fn test_tokenized_invalid_token() {
    let mut reader = source_from_str("@");

    assert_eq!(Err(TokenizedError::Invalid), tokenized(&mut reader, None));
}

#[test]
pub fn test_tokenized_number_two_points() {
    let mut reader = source_from_str("1.2.3");

    assert_eq!(Err(TokenizedError::Invalid), tokenized(&mut reader, None));
}

#[test]
pub fn test_tokenized_number_bare_exponent() {
    let mut reader = source_from_str("12e");

    assert_eq!(Err(TokenizedError::Invalid), tokenized(&mut reader, None));
}

#[test]
pub fn test_tokenized_number_lookahead() {
    let mut reader = source_from_str("123 ");

    let outcome = tokenized(&mut reader, None).unwrap();
    assert_eq!(number("123"), outcome.result);
    assert_eq!(Some(' '), outcome.last_char_read);
}

#[test]
pub fn test_tokenized_invalid_unicode_escape_in_string() {
    let mut reader = source_from_str("\"a\\uZZZZb\"");

    assert_eq!(Err(TokenizedError::InvalidChar), tokenized(&mut reader, None));
}

#[test]
pub fn test_tokenized_object_duplicate_key() {
    let mut reader = source_from_str("{ \"a\": 1, \"a\": 2}");

    assert_eq!(
        JsonValue::Object(vec![entry("a", number("2"))]),
        tokenized(&mut reader, None).unwrap().result
    );
}

#[test]
pub fn test_tokenized_array_malformed_element() {
    // The array loop looks for the closing bracket before parsing another
    // element, so a malformed element surfaces as an error instead of
    // silently ending the array.
    let mut reader = source_from_str("[1, @]");

    assert_eq!(Err(TokenizedError::Invalid), tokenized(&mut reader, None));
}

#[test]
pub fn test_tokenized_array_trailing_comma() {
    // A closing bracket right after a comma ends the array: the loop checks
    // for the delimiter before each element.
    let mut reader = source_from_str("[1, ]");

    assert_eq!(
        JsonValue::Array(vec![number("1")]),
        tokenized(&mut reader, None).unwrap().result
    );
}

#[test]
pub fn test_tokenized_object_inner_escape_error() {
    // A failure deep inside an object propagates outward unchanged: the
    // caller receives the innermost error.
    let mut reader = source_from_str("{ \"a\": \"\\x\"}");

    assert_eq!(Err(TokenizedError::InvalidChar), tokenized(&mut reader, None));
}

#[test]
pub fn test_tokenized_twice_equal() {
    let input = "[1, 2, \"haha\", {\"a\": [true, null]}]";
    let mut first = source_from_str(input);
    let mut second = source_from_str(input);

    assert_eq!(tokenized(&mut first, None), tokenized(&mut second, None));
}
