use json_parser::number::Number;
use json_parser::parser::parse;
use json_parser::stringifier::{get_escaped_character, JsonStringifier};
use json_parser::tokenizer::{TokenType, Tokenizer};
use json_parser::value::{Object, Value};

fn decode(text: &str) -> Option<u64> {
    text.parse::<f64>().ok().map(f64::to_bits)
}

fn format(bits: u64) -> String {
    f64::from_bits(bits).to_string()
}

fn number(value: u64) -> Value {
    Value::Number(Number::UnsignedInteger(value))
}

fn text(value: &str) -> Value {
    Value::String(String::from(value))
}

fn object(entries: Vec<(&str, Value)>) -> Value {
    let mut object = Object::new();
    for (key, value) in entries {
        object.insert(String::from(key), value);
    }
    Value::Object(object)
}

fn sample() -> Value {
    object(vec![
        ("name", text("x\ty")),
        (
            "list",
            Value::Array(vec![
                number(1),
                Value::Number(Number::Integer(-2)),
                Value::Number(Number::Float(0.5f64.to_bits())),
                Value::Array(vec![]),
                object(vec![("deep", Value::Null)]),
            ]),
        ),
        ("flag", Value::Bool(false)),
        ("empty", Value::Object(Object::new())),
    ])
}

#[test]
fn leaves_are_their_literals() {
    assert_eq!(Value::Null.stringified(format).create(), "null");
    assert_eq!(Value::Bool(true).stringified(format).create(), "true");
    assert_eq!(Value::Bool(false).stringified(format).create(), "false");
    assert_eq!(number(200).stringified(format).create(), "200");
    assert_eq!(Value::Number(Number::Integer(-7)).stringified(format).create(), "-7");
    assert_eq!(
        Value::Number(Number::Float(0.0022f64.to_bits())).stringified(format).create(),
        "0.0022"
    );
    assert_eq!(text("abc").stringified(format).create(), "\"abc\"");
}

#[test]
fn empty_containers_stay_on_one_line() {
    assert_eq!(Value::Object(Object::new()).stringified(format).create(), "{}");
    assert_eq!(Value::Array(vec![]).stringified(format).create(), "[]");
    assert_eq!(parse("{}", decode).unwrap().stringified(format).create(), "{}");
    assert_eq!(parse("[]", decode).unwrap().stringified(format).create(), "[]");
}

#[test]
fn entries_are_indented_by_depth() {
    let expected = "{\n  \"name\": \"x\\ty\",\n  \"list\": [\n    1,\n    -2,\n    0.5,\n    [],\n    {\n      \"deep\": null\n    }\n  ],\n  \"flag\": false,\n  \"empty\": {}\n}";
    assert_eq!(sample().stringified(format).create(), expected);
}

#[test]
fn indent_width_is_configurable() {
    let value = Value::Array(vec![number(1), Value::Array(vec![number(2)])]);
    assert_eq!(
        value.stringified(format).indent(4).create(),
        "[\n    1,\n    [\n        2\n    ]\n]"
    );
    assert_eq!(value.stringified(format).indent(0).create(), "[\n1,\n[\n2\n]\n]");
    assert_eq!(value.stringified(format).indent(1).create(), "[\n 1,\n [\n  2\n ]\n]");
    assert_eq!(value.stringify(3, format), "[\n   1,\n   [\n      2\n   ]\n]");
    assert_eq!(
        JsonStringifier::new(&value, format).create(),
        "[\n  1,\n  [\n    2\n  ]\n]"
    );
}

#[test]
fn strings_are_escaped() {
    assert_eq!(
        text("\"\\/\u{8}\u{c}\n\r\t").stringified(format).create(),
        "\"\\\"\\\\/\\b\\f\\n\\r\\t\""
    );
    assert_eq!(text("Hellö 𝄞").stringified(format).create(), "\"Hellö 𝄞\"");
    assert_eq!(text("\u{1}\u{7f}").stringified(format).create(), "\"\u{1}\u{7f}\"");
}

#[test]
fn keys_are_escaped() {
    let value = object(vec![("a\"b", number(1))]);
    assert_eq!(value.stringified(format).create(), "{\n  \"a\\\"b\": 1\n}");
}

#[test]
fn escaped_characters() {
    assert_eq!(get_escaped_character(&'"'), Some("\\\""));
    assert_eq!(get_escaped_character(&'\\'), Some("\\\\"));
    assert_eq!(get_escaped_character(&'\u{8}'), Some("\\b"));
    assert_eq!(get_escaped_character(&'\u{c}'), Some("\\f"));
    assert_eq!(get_escaped_character(&'\n'), Some("\\n"));
    assert_eq!(get_escaped_character(&'\r'), Some("\\r"));
    assert_eq!(get_escaped_character(&'\t'), Some("\\t"));
    assert_eq!(get_escaped_character(&'/'), None);
    assert_eq!(get_escaped_character(&'a'), None);
    assert_eq!(get_escaped_character(&'\u{0}'), None);
}

#[test]
fn object_order_is_insertion_order() {
    let value = object(vec![("b", number(1)), ("a", number(2)), ("b", number(3))]);
    assert_eq!(value.stringified(format).create(), "{\n  \"b\": 3,\n  \"a\": 2\n}");
}

#[test]
fn parse_inverts_stringify() {
    let value = sample();
    for indent in [0u8, 1, 2, 4, 9] {
        let written = value.stringify(indent, format);
        assert_eq!(parse(&written, decode), Ok(sample()), "{}", written);
    }
}

#[test]
fn parse_inverts_stringify_on_leaves() {
    let leaves = vec![
        Value::Null,
        Value::Bool(true),
        Value::Bool(false),
        number(0),
        number(u64::MAX),
        Value::Number(Number::Integer(-1)),
        Value::Number(Number::Integer(i64::MIN)),
        Value::Number(Number::Float(0.1f64.to_bits())),
        Value::Number(Number::Float((-1.5e-7f64).to_bits())),
        Value::Number(Number::Float(1e300f64.to_bits())),
        text(""),
        text("\"\\/\u{8}\u{c}\n\r\t"),
        text("Hellö 𝄞 {[,:]} null 12"),
        text("\u{0}"),
    ];
    for leaf in leaves {
        let written = leaf.stringified(format).create();
        assert_eq!(parse(&written, decode), Ok(leaf), "{}", written);
    }
}

#[test]
fn stringify_of_parsed_text_is_stable() {
    let source = r#"{"a": [1, 2.5, "x", {"b": []}], "c": -3, "a": null}"#;
    let first = parse(source, decode).unwrap().stringified(format).create();
    let second = parse(&first, decode).unwrap().stringified(format).create();
    assert_eq!(first, "{\n  \"a\": null,\n  \"c\": -3\n}");
    assert_eq!(first, second);
}

#[test]
fn decode_inverts_encode_on_strings() {
    let samples = vec![
        "",
        "plain",
        "\"",
        "\\",
        "/",
        "\u{8}\u{c}\n\r\t",
        "a\"b\\c/d\u{8}e\u{c}f\ng\rh\ti",
        "\\n",
        "\\\"",
        "Hellö 𝄞",
        "\u{1}\u{1f}",
        "\u{0}",
        "a\u{0}\"\u{0}",
    ];
    for sample in samples {
        let written = text(sample).stringified(format).create();
        let mut tokenizer = Tokenizer::new(written.clone(), decode);
        let token = tokenizer.next_token().unwrap();
        assert_eq!(token.token_type, TokenType::String(String::from(sample)));
        assert_eq!(token.value, written);
        assert!(tokenizer.next_token().is_none());
    }
}

#[test]
fn tokens_are_collected_to_the_end() {
    let mut tokenizer = Tokenizer::new(String::from("[1, true] x"), decode);
    let tokens = tokenizer.tokens();
    let kinds: Vec<TokenType> = tokens.into_iter().map(|token| token.token_type).collect();
    assert_eq!(
        kinds,
        vec![
            TokenType::BeginArray,
            TokenType::Number(Number::UnsignedInteger(1)),
            TokenType::ValueSeparator,
            TokenType::True,
            TokenType::EndArray,
            TokenType::Invalid,
        ]
    );
    assert!(tokenizer.next_token().is_none());
    assert!(tokenizer.tokens().is_empty());
}

/// A small generator of numbers that look random.
struct Sequence(u64);

impl Sequence {
    fn next(&mut self) -> u64 {
        self.0 ^= self.0 << 13;
        self.0 ^= self.0 >> 7;
        self.0 ^= self.0 << 17;
        self.0
    }

    fn text(&mut self) -> String {
        let alphabet: Vec<char> = "ab \"\\/\u{8}\u{c}\n\r\t{}[]:,0-ü𝄞\u{0}".chars().collect();
        let length = self.next() % 6;
        (0..length)
            .map(|_| alphabet[(self.next() % alphabet.len() as u64) as usize])
            .collect()
    }

    /// A value that is read back as itself.
    fn value(&mut self, depth: u32) -> Value {
        let kinds = if depth == 0 { 6 } else { 8 };
        match self.next() % kinds {
            0 => Value::Null,
            1 => Value::Bool(self.next() % 2 == 0),
            2 => Value::Number(Number::UnsignedInteger(self.next() >> (self.next() % 64))),
            3 => Value::Number(Number::Integer(-1 - (self.next() >> (1 + self.next() % 63)) as i64)),
            4 => {
                let float = (self.next() % 1000) as f64 + 0.5;
                Value::Number(Number::Float(float.to_bits()))
            }
            5 => Value::String(self.text()),
            6 => {
                let length = self.next() % 4;
                Value::Array((0..length).map(|_| self.value(depth - 1)).collect())
            }
            _ => {
                let length = self.next() % 4;
                let mut object = Object::new();
                for _ in 0..length {
                    let key = self.text();
                    let value = self.value(depth - 1);
                    object.insert(key, value);
                }
                Value::Object(object)
            }
        }
    }
}

#[test]
fn parse_inverts_stringify_on_many_values() {
    let mut sequence = Sequence(0x9E37_79B9_7F4A_7C15);
    for round in 0..3_000 {
        let value = sequence.value(4);
        let indent = (round % 5) as u8;
        let written = value.stringify(indent, format);
        assert_eq!(parse(&written, decode).as_ref(), Ok(&value), "{}", written);
    }
}

fn never_asked(bits: u64) -> String {
    panic!("asked for {:#x}", bits)
}

#[test]
fn formatter_is_asked_for_no_integer() {
    let value = object(vec![
        ("a", Value::Array(vec![number(1), Value::Number(Number::Integer(-2))])),
        ("b", text("x")),
    ]);
    assert_eq!(
        value.stringify(2, never_asked),
        "{\n  \"a\": [\n    1,\n    -2\n  ],\n  \"b\": \"x\"\n}"
    );
}
