use json_parser::number::Number;
use json_parser::tokenizer::{Location, Token, TokenType, Tokenizer};

fn decode(text: &str) -> Option<u64> {
    text.parse::<f64>().ok().map(f64::to_bits)
}

fn collect_tokens(json: &str) -> Vec<Token> {
    let mut lexer = Tokenizer::new(String::from(json), decode);
    let mut tokens = Vec::new();
    while let Some(token) = lexer.next_token() {
        tokens.push(token);
    }
    tokens
}

fn first_kind(json: &str) -> TokenType {
    collect_tokens(json).remove(0).token_type
}

fn string(text: &str) -> TokenType {
    TokenType::String(String::from(text))
}

#[test]
fn number_tokens() {
    assert_eq!(TokenType::Number(Number::UnsignedInteger(2073)), first_kind("2073"));
    assert_eq!(TokenType::Number(Number::UnsignedInteger(200)), first_kind("2e2"));
    assert_eq!(TokenType::Number(Number::UnsignedInteger(200)), first_kind("2E2"));
    assert_eq!(TokenType::Number(Number::UnsignedInteger(22)), first_kind("0.22e2"));
    assert_eq!(TokenType::Number(Number::Integer(-2073)), first_kind("-2073"));
    assert_eq!(TokenType::Number(Number::Integer(-200)), first_kind("-2e2"));
    assert_eq!(TokenType::Number(Number::Integer(-200)), first_kind("-2E2"));
    assert_eq!(TokenType::Number(Number::Float(0.534f64.to_bits())), first_kind("0.534"));
    assert_eq!(TokenType::Number(Number::Float(234.534f64.to_bits())), first_kind("234.534"));
    assert_eq!(TokenType::Number(Number::Float(0.0022f64.to_bits())), first_kind("0.22e-2"));
}

#[test]
fn string_tokens() {
    assert_eq!(first_kind(r#""Hello""#), string("Hello"));
    assert_eq!(first_kind(r#""Hellö""#), string("Hellö"));
    assert_eq!(first_kind(r#""\"""#), string("\""));
    assert_eq!(first_kind(r#""\\""#), string("\\"));
    assert_eq!(first_kind(r#""\/""#), string("/"));
    assert_eq!(first_kind(r#""\b""#), string("\u{8}"));
    assert_eq!(first_kind(r#""\f""#), string("\u{C}"));
    assert_eq!(first_kind(r#""\n""#), string("\n"));
    assert_eq!(first_kind(r#""\r""#), string("\r"));
    assert_eq!(first_kind(r#""\t""#), string("\t"));
    assert_eq!(first_kind(r#""\u0022""#), string("\""));
    assert_eq!(first_kind(r#""\u00FC\u00F6""#), string("üö"));
    assert_eq!(first_kind(r#""\uD834\uDD1E""#), string("𝄞"));
}

#[test]
fn surrogate_pair_is_one_code_point() {
    let tokens = collect_tokens(r#""\uD834\uDD1E""#);
    assert_eq!(tokens.len(), 1);
    assert_eq!(tokens[0].token_type, string("\u{1D11E}"));
    assert_eq!(tokens[0].value, r#""\uD834\uDD1E""#);
    assert_eq!(tokens[0].location, Location { line: 1, column: 1, length: 14 });
}

#[test]
fn lone_surrogates_are_invalid() {
    assert_eq!(first_kind(r#""\uD834""#), TokenType::Invalid);
    assert_eq!(first_kind(r#""\uD834x""#), TokenType::Invalid);
    assert_eq!(first_kind(r#""\uDD1E""#), TokenType::Invalid);
    assert_eq!(first_kind(r#""\uD834\n""#), TokenType::Invalid);
    assert_eq!(first_kind(r#""\uD834\u0041""#), TokenType::Invalid);
    assert_eq!(first_kind(r#""\uD834\uE000""#), TokenType::Invalid);
    assert_eq!(first_kind(r#""\uD834\uD834""#), TokenType::Invalid);
    assert_eq!(first_kind(r#""\uD834\uDD1""#), TokenType::Invalid);
}

#[test]
fn unpaired_surrogate_stops_behind_the_second_escape() {
    let tokens = collect_tokens(r#""\uD834\u0041""#);
    assert_eq!(tokens[0].token_type, TokenType::Invalid);
    assert_eq!(tokens[0].value, "\"");
    assert_eq!(tokens[0].location, Location { line: 1, column: 1, length: 12 });
    assert_eq!(tokens[1].token_type, TokenType::Number(Number::UnsignedInteger(1)));
}

#[test]
fn failed_string_keeps_what_was_read() {
    let tokens = collect_tokens(r#""ab\x"#);
    assert_eq!(
        Token {
            token_type: TokenType::Invalid,
            value: String::from("\"ab"),
            location: Location { line: 1, column: 1, length: 4 },
        },
        tokens[0]
    );
    assert_eq!(tokens[1].token_type, TokenType::Invalid);
    assert_eq!(tokens[1].value, "x");
    assert_eq!(tokens[1].location, Location { line: 1, column: 5, length: 1 });
}

#[test]
fn unterminated_string_is_invalid() {
    let tokens = collect_tokens(r#""abc"#);
    assert_eq!(tokens.len(), 1);
    assert_eq!(
        Token {
            token_type: TokenType::Invalid,
            value: String::from("\"abc"),
            location: Location { line: 1, column: 1, length: 4 },
        },
        tokens[0]
    );
}

#[test]
fn short_unicode_escape_is_invalid() {
    let tokens = collect_tokens(r#""\u12G4""#);
    assert_eq!(tokens[0].token_type, TokenType::Invalid);
    assert_eq!(tokens[0].value, "\"");
    assert_eq!(tokens[0].location, Location { line: 1, column: 1, length: 5 });
    assert_eq!(tokens[1].value, "G");
}

#[test]
fn escaped_quote_does_not_end_the_string() {
    let tokens = collect_tokens(r#""a\"b" 1"#);
    assert_eq!(tokens[0].token_type, string("a\"b"));
    assert_eq!(tokens[0].value, r#""a\"b""#);
    assert_eq!(tokens[1].token_type, TokenType::Number(Number::UnsignedInteger(1)));
}

#[test]
fn empty_string_token() {
    let tokens = collect_tokens(r#""""#);
    assert_eq!(
        Token {
            token_type: string(""),
            value: String::from("\"\""),
            location: Location { line: 1, column: 1, length: 2 },
        },
        tokens[0]
    );
}

#[test]
fn keyword_tokens() {
    assert_eq!(first_kind("true"), TokenType::True);
    assert_eq!(first_kind("false"), TokenType::False);
    assert_eq!(first_kind("null"), TokenType::Null);
    assert_eq!(first_kind("nul"), TokenType::Invalid);
    assert_eq!(first_kind("True"), TokenType::Invalid);
    assert_eq!(first_kind("nullx"), TokenType::Invalid);
    let tokens = collect_tokens("truefalse");
    assert_eq!(tokens.len(), 1);
    assert_eq!(tokens[0].value, "truefalse");
    assert_eq!(tokens[0].location, Location { line: 1, column: 1, length: 9 });
}

#[test]
fn exponent_letter_begins_a_keyword() {
    let tokens = collect_tokens("e5");
    assert_eq!(tokens[0].token_type, TokenType::Invalid);
    assert_eq!(tokens[0].value, "e");
    assert_eq!(tokens[1].token_type, TokenType::Number(Number::UnsignedInteger(5)));
}

#[test]
fn number_run_is_maximal() {
    let tokens = collect_tokens("1-2+3.e");
    assert_eq!(tokens.len(), 1);
    assert_eq!(tokens[0].token_type, TokenType::Invalid);
    assert_eq!(tokens[0].value, "1-2+3.e");
    assert_eq!(tokens[0].location, Location { line: 1, column: 1, length: 7 });
}

#[test]
fn leading_dot_is_no_number() {
    let tokens = collect_tokens(".5");
    assert_eq!(tokens[0].token_type, TokenType::Invalid);
    assert_eq!(tokens[0].value, ".");
    assert_eq!(tokens[0].location, Location { line: 1, column: 1, length: 1 });
    assert_eq!(tokens[1].token_type, TokenType::Number(Number::UnsignedInteger(5)));
}

#[test]
fn other_characters_are_invalid_one_by_one() {
    let tokens = collect_tokens("#?");
    assert_eq!(tokens.len(), 2);
    assert_eq!(tokens[0].token_type, TokenType::Invalid);
    assert_eq!(tokens[0].value, "#");
    assert_eq!(tokens[1].value, "?");
    assert_eq!(tokens[1].location, Location { line: 1, column: 2, length: 1 });
}

#[test]
fn structural_tokens() {
    let tokens = collect_tokens("[]{}:,");
    let kinds: Vec<TokenType> = tokens.into_iter().map(|token| token.token_type).collect();
    assert_eq!(
        kinds,
        vec![
            TokenType::BeginArray,
            TokenType::EndArray,
            TokenType::BeginObject,
            TokenType::EndObject,
            TokenType::NameSeparator,
            TokenType::ValueSeparator,
        ]
    );
}

#[test]
fn whitespace_moves_line_and_column() {
    let tokens = collect_tokens(" \t1\n  2\r\n3");
    assert_eq!(tokens[0].location, Location { line: 1, column: 3, length: 1 });
    assert_eq!(tokens[1].location, Location { line: 2, column: 3, length: 1 });
    assert_eq!(tokens[2].location, Location { line: 4, column: 1, length: 1 });
}

#[test]
fn end_of_input_is_permanent() {
    let mut lexer = Tokenizer::new(String::from("1 "), decode);
    assert!(lexer.next_token().is_some());
    assert!(lexer.next_token().is_none());
    assert!(lexer.next_token().is_none());
    assert_eq!(lexer.line(), 1);
    assert_eq!(lexer.column(), 3);
    assert_eq!(lexer.position(), 2);
}

#[test]
fn empty_input_has_no_token() {
    let mut lexer = Tokenizer::new(String::new(), decode);
    assert!(lexer.next_token().is_none());
    assert_eq!(lexer.line(), 1);
    assert_eq!(lexer.column(), 1);
}

#[test]
fn nul_character_is_a_character_as_any_other() {
    let tokens = collect_tokens("\u{0}1");
    assert_eq!(tokens.len(), 2);
    assert_eq!(
        Token {
            token_type: TokenType::Invalid,
            value: String::from("\u{0}"),
            location: Location { line: 1, column: 1, length: 1 },
        },
        tokens[0]
    );
    assert_eq!(tokens[1].token_type, TokenType::Number(Number::UnsignedInteger(1)));
    assert_eq!(tokens[1].location, Location { line: 1, column: 2, length: 1 });
    let tokens = collect_tokens("1\u{0}2");
    assert_eq!(tokens.len(), 3);
    assert_eq!(tokens[1].token_type, TokenType::Invalid);
    assert_eq!(tokens[2].token_type, TokenType::Number(Number::UnsignedInteger(2)));
}

#[test]
fn nul_character_stands_in_a_string() {
    let tokens = collect_tokens("\"a\u{0}b\" 1");
    assert_eq!(tokens.len(), 2);
    assert_eq!(tokens[0].token_type, string("a\u{0}b"));
    assert_eq!(tokens[0].value, "\"a\u{0}b\"");
    assert_eq!(tokens[0].location, Location { line: 1, column: 1, length: 5 });
    let tokens = collect_tokens("\"a\u{0}");
    assert_eq!(tokens.len(), 1);
    assert_eq!(tokens[0].token_type, TokenType::Invalid);
    assert_eq!(tokens[0].value, "\"a\u{0}");
    let tokens = collect_tokens("tru\u{0}e");
    assert_eq!(tokens.len(), 3);
}

#[test]
fn array_tokens() {
    let tokens = collect_tokens("[5]");
    assert_eq!(
        Token {
            token_type: TokenType::BeginArray,
            value: String::from("["),
            location: Location {
                line: 1,
                column: 1,
                length: 1,
            }
        },
        tokens[0]
    );
    assert_eq!(
        Token {
            token_type: TokenType::Number(Number::UnsignedInteger(5)),
            value: String::from("5"),
            location: Location {
                line: 1,
                column: 2,
                length: 1,
            }
        },
        tokens[1]
    );
    assert_eq!(
        Token {
            token_type: TokenType::EndArray,
            value: String::from("]"),
            location: Location {
                line: 1,
                column: 3,
                length: 1,
            }
        },
        tokens[2]
    );
}

#[test]
fn object_tokens() {
    let tokens = collect_tokens("{ \"key\": \"value\" }");
    assert_eq!(
        Token {
            token_type: TokenType::BeginObject,
            value: String::from("{"),
            location: Location {
                line: 1,
                column: 1,
                length: 1,
            }
        },
        tokens[0]
    );
    assert_eq!(
        Token {
            token_type: TokenType::String(String::from("key")),
            value: String::from("\"key\""),
            location: Location {
                line: 1,
                column: 3,
                length: 5,
            }
        },
        tokens[1]
    );
    assert_eq!(
        Token {
            token_type: TokenType::NameSeparator,
            value: String::from(":"),
            location: Location {
                line: 1,
                column: 8,
                length: 1,
            }
        },
        tokens[2]
    );
    assert_eq!(
        Token {
            token_type: TokenType::String(String::from("value")),
            value: String::from("\"value\""),
            location: Location {
                line: 1,
                column: 10,
                length: 7,
            }
        },
        tokens[3]
    );
    assert_eq!(
        Token {
            token_type: TokenType::EndObject,
            value: String::from("}"),
            location: Location {
                line: 1,
                column: 18,
                length: 1,
            }
        },
        tokens[4]
    )
}

/// The positions before and after each token of `json`.
fn token_extents(json: &str) -> Vec<(TokenType, String, usize, usize, usize)> {
    let mut lexer = Tokenizer::new(String::from(json), decode);
    let mut extents = Vec::new();
    while let Some(token) = lexer.next_token() {
        let end = lexer.position();
        let start = end - token.location.length;
        extents.push((token.token_type, token.value, token.location.line - 1, start, end));
    }
    extents
}

#[test]
fn tokenizer_array_tokens() {
    let tokens = token_extents("[5]");
    assert_eq!((TokenType::BeginArray, String::from("["), 0, 0, 1), tokens[0]);
    assert_eq!(
        (
            TokenType::Number(Number::UnsignedInteger(5)),
            String::from("5"),
            0,
            1,
            2
        ),
        tokens[1]
    );
    assert_eq!((TokenType::EndArray, String::from("]"), 0, 2, 3), tokens[2]);
}

#[test]
fn tokenizer_object_tokens() {
    let tokens = token_extents("{ \"key\": \"value\" }");
    assert_eq!((TokenType::BeginObject, String::from("{"), 0, 0, 1), tokens[0]);
    assert_eq!(
        (
            TokenType::String(String::from("key")),
            String::from("\"key\""),
            0,
            2,
            7
        ),
        tokens[1]
    );
    assert_eq!((TokenType::NameSeparator, String::from(":"), 0, 7, 8), tokens[2]);
    assert_eq!(
        (
            TokenType::String(String::from("value")),
            String::from("\"value\""),
            0,
            9,
            16
        ),
        tokens[3]
    );
    assert_eq!((TokenType::EndObject, String::from("}"), 0, 17, 18), tokens[4]);
}
