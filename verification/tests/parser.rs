use json_parser::number::Number;
use json_parser::parse_error::{format_expected, format_location, ParseError, ParseErrorArgs};
use json_parser::parser::{parse, parse_array, parse_object, parse_property, parse_value, unwrap_token};
use json_parser::tokenizer::{Location, Token, TokenType, Tokenizer};
use json_parser::value::{Object, Value};

fn decode(text: &str) -> Option<u64> {
    text.parse::<f64>().ok().map(f64::to_bits)
}

fn number(value: u64) -> Value {
    Value::Number(Number::UnsignedInteger(value))
}

fn text(value: &str) -> Value {
    Value::String(String::from(value))
}

fn object(entries: Vec<(&str, Value)>) -> Value {
    let mut object = Object::new();
    for (key, value) in entries {
        object.insert(String::from(key), value);
    }
    Value::Object(object)
}

fn expected_values() -> Vec<String> {
    vec!["null", "true", "false", "number", "string", "{", "["]
        .into_iter()
        .map(String::from)
        .collect()
}

fn strings(items: Vec<&str>) -> Vec<String> {
    items.into_iter().map(String::from).collect()
}

#[test]
fn parses_leaves() {
    assert_eq!(parse("null", decode), Ok(Value::Null));
    assert_eq!(parse("true", decode), Ok(Value::Bool(true)));
    assert_eq!(parse("false", decode), Ok(Value::Bool(false)));
    assert_eq!(parse("12", decode), Ok(number(12)));
    assert_eq!(parse("-12", decode), Ok(Value::Number(Number::Integer(-12))));
    assert_eq!(parse("1.5", decode), Ok(Value::Number(Number::Float(1.5f64.to_bits()))));
    assert_eq!(parse("2e2", decode), Ok(number(200)));
    assert_eq!(parse("\"a\\nb\"", decode), Ok(text("a\nb")));
    assert_eq!(parse("  \n\t 7 ", decode), Ok(number(7)));
}

#[test]
fn parses_empty_containers() {
    assert_eq!(parse("{}", decode), Ok(Value::Object(Object::new())));
    assert_eq!(parse("[]", decode), Ok(Value::Array(Vec::new())));
    assert_eq!(parse("{ }", decode), Ok(Value::Object(Object::new())));
    assert_eq!(parse("[\n]", decode), Ok(Value::Array(vec![])));
}

#[test]
fn parses_nested_containers() {
    let parsed = parse(
        r#"{"name": "x", "list": [1, [2, 3], {"deep": null}], "flag": true, "empty": {}}"#,
        decode,
    );
    let expected = object(vec![
        ("name", text("x")),
        (
            "list",
            Value::Array(vec![
                number(1),
                Value::Array(vec![number(2), number(3)]),
                object(vec![("deep", Value::Null)]),
            ]),
        ),
        ("flag", Value::Bool(true)),
        ("empty", Value::Object(Object::new())),
    ]);
    assert_eq!(parsed, Ok(expected));
}

#[test]
fn object_keeps_insertion_order() {
    let parsed = parse(r#"{"b": 1, "a": 2, "c": 3}"#, decode).unwrap();
    let Value::Object(entries) = parsed else {
        panic!("no object");
    };
    assert_eq!(entries.len(), 3);
    let keys: Vec<&str> = (0..3)
        .map(|index| entries.get_index(index).unwrap().0.as_str())
        .collect();
    assert_eq!(keys, vec!["b", "a", "c"]);
    assert!(entries.get_index(3).is_none());
}

#[test]
fn duplicate_key_takes_the_later_value() {
    let parsed = parse(r#"{"a":1,"a":2}"#, decode).unwrap();
    let Value::Object(entries) = parsed else {
        panic!("no object");
    };
    assert_eq!(entries.len(), 1);
    assert_eq!(entries.get("a"), Some(&number(2)));
    assert_eq!(entries.get("b"), None);
}

#[test]
fn duplicate_key_keeps_its_first_place() {
    let parsed = parse(r#"{"a":1,"b":2,"a":3}"#, decode).unwrap();
    let Value::Object(entries) = parsed else {
        panic!("no object");
    };
    assert_eq!(entries.len(), 2);
    assert_eq!(entries.get_index(0), Some((&String::from("a"), &number(3))));
    assert_eq!(entries.get_index(1), Some((&String::from("b"), &number(2))));
}

#[test]
fn trailing_comma_in_array_is_rejected() {
    let error = parse("[1,]", decode).unwrap_err();
    let ParseError::UnexpectedToken(args) = error else {
        panic!("another error");
    };
    assert_eq!(
        args.token(),
        &Token {
            token_type: TokenType::EndArray,
            value: String::from("]"),
            location: Location { line: 1, column: 4, length: 1 },
        }
    );
    assert_eq!(args.expected_tokens(), &expected_values());
}

#[test]
fn trailing_comma_in_object_is_rejected() {
    let error = parse(r#"{"a":1,}"#, decode).unwrap_err();
    let ParseError::UnexpectedToken(args) = error else {
        panic!("another error");
    };
    assert_eq!(args.token().token_type, TokenType::EndObject);
    assert_eq!(args.token().location, Location { line: 1, column: 8, length: 1 });
    assert_eq!(args.expected_tokens(), &strings(vec!["string"]));
}

#[test]
fn leading_comma_is_rejected() {
    assert!(matches!(parse("[,1]", decode), Err(ParseError::UnexpectedToken(_))));
    assert!(matches!(parse("{,}", decode), Err(ParseError::UnexpectedToken(_))));
}

#[test]
fn end_of_file_mid_structure() {
    assert_eq!(
        parse("{\"a\":", decode),
        Err(ParseError::UnexpectedEndOfFile(Location { line: 1, column: 6, length: 1 }))
    );
    assert_eq!(
        parse("[1, 2", decode),
        Err(ParseError::UnexpectedEndOfFile(Location { line: 1, column: 6, length: 1 }))
    );
    assert_eq!(
        parse("{\"a\"", decode),
        Err(ParseError::UnexpectedEndOfFile(Location { line: 1, column: 5, length: 1 }))
    );
    assert_eq!(
        parse("[\n  1,\n", decode),
        Err(ParseError::UnexpectedEndOfFile(Location { line: 3, column: 1, length: 1 }))
    );
}

#[test]
fn empty_input_is_an_end_of_file() {
    assert_eq!(
        parse("", decode),
        Err(ParseError::UnexpectedEndOfFile(Location { line: 1, column: 1, length: 1 }))
    );
    assert_eq!(
        parse("   ", decode),
        Err(ParseError::UnexpectedEndOfFile(Location { line: 1, column: 4, length: 1 }))
    );
}

#[test]
fn structural_token_is_no_value() {
    let error = parse(",", decode).unwrap_err();
    let ParseError::UnexpectedToken(args) = error else {
        panic!("another error");
    };
    assert_eq!(args.token().token_type, TokenType::ValueSeparator);
    assert_eq!(args.expected_tokens(), &expected_values());
    assert!(matches!(parse("]", decode), Err(ParseError::UnexpectedToken(_))));
    assert!(matches!(parse("}", decode), Err(ParseError::UnexpectedToken(_))));
    assert!(matches!(parse(":", decode), Err(ParseError::UnexpectedToken(_))));
    assert!(matches!(parse("[1 :]", decode), Err(ParseError::UnexpectedToken(_))));
}

#[test]
fn invalid_token_is_reported_as_such() {
    let error = parse("[nul]", decode).unwrap_err();
    let ParseError::InvalidToken(args) = error else {
        panic!("another error");
    };
    assert_eq!(
        args.token(),
        &Token {
            token_type: TokenType::Invalid,
            value: String::from("nul"),
            location: Location { line: 1, column: 2, length: 3 },
        }
    );
    assert_eq!(args.expected_tokens(), &expected_values());
    assert!(matches!(parse("1-2", decode), Err(ParseError::InvalidToken(_))));
    assert!(matches!(parse("\"abc", decode), Err(ParseError::InvalidToken(_))));
    assert!(matches!(parse("\"\\x\"", decode), Err(ParseError::InvalidToken(_))));
    assert!(matches!(parse("#", decode), Err(ParseError::InvalidToken(_))));
    assert!(matches!(parse(".5", decode), Err(ParseError::InvalidToken(_))));
}

#[test]
fn key_has_to_be_a_string() {
    let error = parse("{1: 2}", decode).unwrap_err();
    let ParseError::UnexpectedToken(args) = error else {
        panic!("another error");
    };
    assert_eq!(args.token().token_type, TokenType::Number(Number::UnsignedInteger(1)));
    assert_eq!(args.expected_tokens(), &strings(vec!["string"]));
    let error = parse("{nul: 2}", decode).unwrap_err();
    assert!(matches!(error, ParseError::UnexpectedToken(_)));
}

#[test]
fn colon_has_to_follow_the_key() {
    let error = parse(r#"{"a" 1}"#, decode).unwrap_err();
    let ParseError::UnexpectedToken(args) = error else {
        panic!("another error");
    };
    assert_eq!(args.token().value, "1");
    assert_eq!(args.token().location, Location { line: 1, column: 6, length: 1 });
    assert_eq!(args.expected_tokens(), &strings(vec![":"]));
}

#[test]
fn comma_or_end_has_to_follow_an_entry() {
    let error = parse(r#"{"a": 1 "b": 2}"#, decode).unwrap_err();
    let ParseError::UnexpectedToken(args) = error else {
        panic!("another error");
    };
    assert_eq!(args.token().value, "\"b\"");
    assert_eq!(args.expected_tokens(), &strings(vec!["}", ","]));
    let error = parse("[1 2]", decode).unwrap_err();
    let ParseError::UnexpectedToken(args) = error else {
        panic!("another error");
    };
    assert_eq!(args.token().value, "2");
    assert_eq!(args.expected_tokens(), &strings(vec!["]", ","]));
}

#[test]
fn what_follows_the_value_is_left_unread() {
    let mut tokenizer = Tokenizer::new(String::from("[1] [2]"), decode);
    assert_eq!(Value::parse(&mut tokenizer), Ok(Value::Array(vec![number(1)])));
    assert_eq!(tokenizer.position(), 3);
    assert_eq!(Value::parse(&mut tokenizer), Ok(Value::Array(vec![number(2)])));
    assert!(matches!(
        Value::parse(&mut tokenizer),
        Err(ParseError::UnexpectedEndOfFile(_))
    ));
}

#[test]
fn parse_value_takes_a_token_already_read() {
    let mut tokenizer = Tokenizer::new(String::from("[1, 2] 3"), decode);
    let first = unwrap_token(&mut tokenizer).unwrap();
    assert_eq!(first.token_type, TokenType::BeginArray);
    assert_eq!(
        parse_value(&mut tokenizer, Some(first)),
        Ok(Value::Array(vec![number(1), number(2)]))
    );
    assert_eq!(parse_value(&mut tokenizer, None), Ok(number(3)));
}

#[test]
fn parse_object_and_array_start_behind_the_bracket() {
    let mut tokenizer = Tokenizer::new(String::from("\"a\": 1}"), decode);
    assert_eq!(parse_object(&mut tokenizer), Ok(object(vec![("a", number(1))])));
    let mut tokenizer = Tokenizer::new(String::from("1, 2]"), decode);
    assert_eq!(parse_array(&mut tokenizer), Ok(Value::Array(vec![number(1), number(2)])));
}

#[test]
fn parse_property_reads_colon_and_value() {
    let mut tokenizer = Tokenizer::new(String::from("\"a\": [true]"), decode);
    let key = unwrap_token(&mut tokenizer).unwrap();
    assert_eq!(
        parse_property(&mut tokenizer, key),
        Ok((String::from("a"), Value::Array(vec![Value::Bool(true)])))
    );
}

#[test]
fn unwrap_token_reports_the_place_of_the_end() {
    let mut tokenizer = Tokenizer::new(String::from("1\n\n "), decode);
    assert!(unwrap_token(&mut tokenizer).is_ok());
    assert_eq!(
        unwrap_token(&mut tokenizer),
        Err(ParseError::UnexpectedEndOfFile(Location { line: 3, column: 2, length: 1 }))
    );
}

#[test]
fn error_messages() {
    assert_eq!(
        parse("{\"a\":", decode).unwrap_err().to_string(),
        ">> Parsing Error on line 1 column 6: Unexpected end of file"
    );
    assert_eq!(
        parse("[1,]", decode).unwrap_err().to_string(),
        ">> Parsing Error on line 1 column 4: Expected `null`, `true`, `false`, `number`, `string`, `{` or `[`. Received token `]`"
    );
    assert_eq!(
        parse("[\n  nul\n]", decode).unwrap_err().to_string(),
        ">> Parsing Error on line 2 column 3: Expected `null`, `true`, `false`, `number`, `string`, `{` or `[`. Received invalid token `nul`"
    );
    assert_eq!(
        parse("[1 2]", decode).unwrap_err().to_string(),
        ">> Parsing Error on line 1 column 4: Expected `]` or `,`. Received token `2`"
    );
    assert_eq!(
        parse("{1}", decode).unwrap_err().to_string(),
        ">> Parsing Error on line 1 column 2: Expected  or `string`. Received token `1`"
    );
}

#[test]
fn message_parts() {
    assert_eq!(
        format_location(&Location { line: 12, column: 345, length: 1 }),
        ">> Parsing Error on line 12 column 345"
    );
    assert_eq!(format_expected(&strings(vec![])), "Expected ");
    assert_eq!(format_expected(&strings(vec!["a"])), "Expected  or `a`");
    assert_eq!(format_expected(&strings(vec!["a", "b"])), "Expected `a` or `b`");
    assert_eq!(format_expected(&strings(vec!["a", "b", "c"])), "Expected `a`, `b` or `c`");
}

#[test]
fn error_arguments_keep_token_and_expectations() {
    let token = Token {
        token_type: TokenType::ValueSeparator,
        value: String::from(","),
        location: Location { line: 2, column: 5, length: 1 },
    };
    let args = ParseErrorArgs::new(token, vec!["}", ","]);
    assert_eq!(args.token().value, ",");
    assert_eq!(args.token().location, Location { line: 2, column: 5, length: 1 });
    assert_eq!(args.expected_tokens(), &strings(vec!["}", ","]));
}

fn never_asked(text: &str) -> Option<u64> {
    panic!("asked for {:?}", text)
}

#[test]
fn decoder_is_asked_for_no_integer() {
    let parsed = parse(r#"{"a": [1, -2, +3, "4.5", true, null], "b": {}}"#, never_asked);
    let expected = object(vec![
        (
            "a",
            Value::Array(vec![
                number(1),
                Value::Number(Number::Integer(-2)),
                number(3),
                text("4.5"),
                Value::Bool(true),
                Value::Null,
            ]),
        ),
        ("b", Value::Object(Object::new())),
    ]);
    assert_eq!(parsed, Ok(expected));
    assert!(matches!(parse("[1, nul]", never_asked), Err(ParseError::InvalidToken(_))));
}

#[test]
fn decoder_decides_what_is_no_integer() {
    fn seven(_: &str) -> Option<u64> {
        Some(7.5f64.to_bits())
    }
    fn none(_: &str) -> Option<u64> {
        None
    }
    assert_eq!(parse("1.5", seven), Ok(Value::Number(Number::Float(7.5f64.to_bits()))));
    assert_eq!(parse("15", seven), Ok(number(15)));
    assert!(matches!(parse("1.5", none), Err(ParseError::InvalidToken(_))));
}
