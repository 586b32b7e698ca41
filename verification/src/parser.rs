//! The parser: builds a value from the tokens of a text by recursive
//! descent, with one token of lookahead.

use vstd::prelude::*;
use crate::number::reads_floats;
use crate::parse_error::{Fault, ParseError, ParseErrorArgs, slice_texts};
use crate::scan::{
    Location, Scan, TokenKind, TokenView, lemma_float_free_next, lemma_next_token_advances,
    lemma_token_consumes, located, no_floats,
};
use crate::tokenizer::{Token, TokenType, Tokenizer, token_view};
use crate::value::{
    Json, Object, Value, distinct_throughout, inserted, items_view, lemma_inserted,
    lemma_items_view, lemma_key_index,
};

verus! {

/// What parsing gave, and the place behind what was read for it.
pub type Parsed<T> = (Result<T, Fault>, Scan);

/// The kinds of token with which a value begins.
pub open spec fn value_tokens() -> Seq<Seq<char>> {
    seq!["null"@, "true"@, "false"@, "number"@, "string"@, "{"@, "["@]
}

/// The kinds of token that may follow a property.
pub open spec fn object_tokens() -> Seq<Seq<char>> {
    seq!["}"@, ","@]
}

/// The kinds of token that may follow an item.
pub open spec fn array_tokens() -> Seq<Seq<char>> {
    seq!["]"@, ","@]
}

/// The next token, which has to be there: where the text has ended, the
/// fault says so and names the place where the tokenizer then stands.
pub open spec fn required_token(scan: Scan, floats: spec_fn(Seq<char>) -> Option<u64>) -> Parsed<
    TokenView,
> {
    required(scan.next_token(floats))
}

/// What was read as a token that has to be there.
pub open spec fn required(read: (Option<TokenView>, Scan)) -> Parsed<TokenView> {
    let (token, next) = read;
    match token {
        Some(token) => (Ok(token), next),
        None => (Err(Fault::UnexpectedEndOfFile(located(next.line, next.column, 1))), next),
    }
}

/// The value that begins with `token`, or with the next token where none is
/// given.
pub open spec fn parsed_value(
    scan: Scan,
    token: Option<TokenView>,
    floats: spec_fn(Seq<char>) -> Option<u64>,
) -> Parsed<Json>
    decreases scan.remaining(), 2int,
{
    match token {
        Some(token) => parsed_token(scan, token, floats),
        None => {
            let (token, next) = required_token(scan, floats);
            proof {
                lemma_token_consumes(scan, floats);
            }
            match token {
                Ok(token) => parsed_token(next, token, floats),
                Err(fault) => (Err(fault), next),
            }
        },
    }
}

/// The value that begins with `token`, which was read before `scan`. A
/// keyword, a number and a string are values; a brace and a bracket begin
/// one; no other token does.
pub open spec fn parsed_token(
    scan: Scan,
    token: TokenView,
    floats: spec_fn(Seq<char>) -> Option<u64>,
) -> Parsed<Json>
    decreases scan.remaining(), 1int,
{
    match token.kind {
        TokenKind::Null => (Ok(Json::Null), scan),
        TokenKind::True => (Ok(Json::Bool(true)), scan),
        TokenKind::False => (Ok(Json::Bool(false)), scan),
        TokenKind::Number(number) => (Ok(Json::Number(number)), scan),
        TokenKind::String(string) => (Ok(Json::String(string)), scan),
        TokenKind::BeginObject => parsed_object(scan, Seq::empty(), true, floats),
        TokenKind::BeginArray => parsed_array(scan, Seq::empty(), true, floats),
        TokenKind::Invalid => (Err(Fault::InvalidToken(token, value_tokens())), scan),
        _ => (Err(Fault::UnexpectedToken(token, value_tokens())), scan),
    }
}

/// The object of which `entries` were read before `scan`. After the brace
/// and after a comma (`had_comma`) a property has to follow, but that the
/// brace may be followed by the closing one; after a property, a comma or
/// the closing brace.
///
/// The object is read on from behind a property. That this is no earlier
/// than where the property began is asked here for the sake of the
/// definition only: it always holds (`lemma_parsed_property_advances`).
pub open spec fn parsed_object(
    scan: Scan,
    entries: Seq<(Seq<char>, Json)>,
    had_comma: bool,
    floats: spec_fn(Seq<char>) -> Option<u64>,
) -> Parsed<Json>
    decreases scan.remaining(), 0int,
{
    let (token, next) = required_token(scan, floats);
    proof {
        lemma_token_consumes(scan, floats);
    }
    match token {
        Err(fault) => (Err(fault), next),
        Ok(token) => if had_comma {
            if entries.len() == 0 && token.kind is EndObject {
                (Ok(Json::Object(entries)), next)
            } else {
                let (property, after) = parsed_property(next, token, floats);
                match property {
                    Err(fault) => (Err(fault), after),
                    Ok((key, value)) => if after.remaining() <= next.remaining() {
                        parsed_object(after, inserted(entries, key, value), false, floats)
                    } else {
                        (Ok(Json::Object(entries)), after)
                    },
                }
            }
        } else {
            match token.kind {
                TokenKind::EndObject => (Ok(Json::Object(entries)), next),
                TokenKind::ValueSeparator => parsed_object(next, entries, true, floats),
                _ => (Err(Fault::UnexpectedToken(token, object_tokens())), next),
            }
        },
    }
}

/// The property whose key is `token`, which was read before `scan`: a
/// string, a colon and a value.
pub open spec fn parsed_property(
    scan: Scan,
    token: TokenView,
    floats: spec_fn(Seq<char>) -> Option<u64>,
) -> Parsed<(Seq<char>, Json)>
    decreases scan.remaining(), 3int,
{
    match token.kind {
        TokenKind::String(key) => {
            let (separator, next) = required_token(scan, floats);
            proof {
                lemma_token_consumes(scan, floats);
            }
            match separator {
                Err(fault) => (Err(fault), next),
                Ok(separator) => match separator.kind {
                    TokenKind::NameSeparator => {
                        let (value, after) = parsed_value(next, None, floats);
                        match value {
                            Ok(value) => (Ok((key, value)), after),
                            Err(fault) => (Err(fault), after),
                        }
                    },
                    _ => (Err(Fault::UnexpectedToken(separator, seq![":"@])), next),
                },
            }
        },
        _ => (Err(Fault::UnexpectedToken(token, seq!["string"@])), scan),
    }
}

/// The array of which `items` were read before `scan`, by the rules of an
/// object with items in the place of properties.
///
/// That an item ends no earlier than it began is asked here for the sake of
/// the definition only: it always holds (`lemma_parsed_value_advances`).
pub open spec fn parsed_array(
    scan: Scan,
    items: Seq<Json>,
    had_comma: bool,
    floats: spec_fn(Seq<char>) -> Option<u64>,
) -> Parsed<Json>
    decreases scan.remaining(), 0int,
{
    let (token, next) = required_token(scan, floats);
    proof {
        lemma_token_consumes(scan, floats);
    }
    match token {
        Err(fault) => (Err(fault), next),
        Ok(token) => if had_comma {
            if items.len() == 0 && token.kind is EndArray {
                (Ok(Json::Array(items)), next)
            } else {
                let (value, after) = parsed_value(next, Some(token), floats);
                match value {
                    Err(fault) => (Err(fault), after),
                    Ok(value) => if after.remaining() <= next.remaining() {
                        parsed_array(after, items.push(value), false, floats)
                    } else {
                        (Ok(Json::Array(items)), after)
                    },
                }
            }
        } else {
            match token.kind {
                TokenKind::EndArray => (Ok(Json::Array(items)), next),
                TokenKind::ValueSeparator => parsed_array(next, items, true, floats),
                _ => (Err(Fault::UnexpectedToken(token, array_tokens())), next),
            }
        },
    }
}

/// The value that a text holds at its beginning.
pub open spec fn parsed_text(characters: Seq<char>, floats: spec_fn(Seq<char>) -> Option<u64>)
    -> Result<Json, Fault> {
    parsed_value(Scan::start(characters), None, floats).0
}

/// Parsing goes forward: it ends within the text, no earlier than it
/// began. So the conditions under which `parsed_object` and `parsed_array`
/// read on always hold.
pub proof fn lemma_parsed_value_advances(
    scan: Scan,
    token: Option<TokenView>,
    floats: spec_fn(Seq<char>) -> Option<u64>,
)
    requires
        scan.within(),
    ensures
        parsed_value(scan, token, floats).1.within(),
        parsed_value(scan, token, floats).1.characters == scan.characters,
        parsed_value(scan, token, floats).1.position >= scan.position,
    decreases scan.remaining(), 2int,
{
    lemma_next_token_advances(scan, floats);
    match token {
        Some(token) => lemma_parsed_token_advances(scan, token, floats),
        None => {
            let (token, next) = required_token(scan, floats);
            match token {
                Ok(token) => lemma_parsed_token_advances(next, token, floats),
                Err(_) => {},
            }
        },
    }
}

/// Parsing from a token on goes forward.
pub proof fn lemma_parsed_token_advances(
    scan: Scan,
    token: TokenView,
    floats: spec_fn(Seq<char>) -> Option<u64>,
)
    requires
        scan.within(),
    ensures
        parsed_token(scan, token, floats).1.within(),
        parsed_token(scan, token, floats).1.characters == scan.characters,
        parsed_token(scan, token, floats).1.position >= scan.position,
    decreases scan.remaining(), 1int,
{
    match token.kind {
        TokenKind::BeginObject => lemma_parsed_object_advances(scan, Seq::empty(), true, floats),
        TokenKind::BeginArray => lemma_parsed_array_advances(scan, Seq::empty(), true, floats),
        _ => {},
    }
}

/// Parsing an object goes forward.
pub proof fn lemma_parsed_object_advances(
    scan: Scan,
    entries: Seq<(Seq<char>, Json)>,
    had_comma: bool,
    floats: spec_fn(Seq<char>) -> Option<u64>,
)
    requires
        scan.within(),
    ensures
        parsed_object(scan, entries, had_comma, floats).1.within(),
        parsed_object(scan, entries, had_comma, floats).1.characters == scan.characters,
        parsed_object(scan, entries, had_comma, floats).1.position >= scan.position,
    decreases scan.remaining(), 0int,
{
    lemma_next_token_advances(scan, floats);
    let (token, next) = required_token(scan, floats);
    match token {
        Err(_) => {},
        Ok(token) => if had_comma {
            if entries.len() == 0 && token.kind is EndObject {
            } else {
                lemma_parsed_property_advances(next, token, floats);
                let (property, after) = parsed_property(next, token, floats);
                match property {
                    Err(_) => {},
                    Ok((key, value)) => {
                        lemma_parsed_object_advances(
                            after,
                            inserted(entries, key, value),
                            false,
                            floats,
                        );
                    },
                }
            }
        } else {
            match token.kind {
                TokenKind::ValueSeparator => lemma_parsed_object_advances(
                    next,
                    entries,
                    true,
                    floats,
                ),
                _ => {},
            }
        },
    }
}

/// Parsing a property goes forward.
pub proof fn lemma_parsed_property_advances(
    scan: Scan,
    token: TokenView,
    floats: spec_fn(Seq<char>) -> Option<u64>,
)
    requires
        scan.within(),
    ensures
        parsed_property(scan, token, floats).1.within(),
        parsed_property(scan, token, floats).1.characters == scan.characters,
        parsed_property(scan, token, floats).1.position >= scan.position,
    decreases scan.remaining(), 3int,
{
    lemma_next_token_advances(scan, floats);
    match token.kind {
        TokenKind::String(_) => {
            let (separator, next) = required_token(scan, floats);
            match separator {
                Err(_) => {},
                Ok(separator) => match separator.kind {
                    TokenKind::NameSeparator => lemma_parsed_value_advances(next, None, floats),
                    _ => {},
                },
            }
        },
        _ => {},
    }
}

/// Parsing an array goes forward.
pub proof fn lemma_parsed_array_advances(
    scan: Scan,
    items: Seq<Json>,
    had_comma: bool,
    floats: spec_fn(Seq<char>) -> Option<u64>,
)
    requires
        scan.within(),
    ensures
        parsed_array(scan, items, had_comma, floats).1.within(),
        parsed_array(scan, items, had_comma, floats).1.characters == scan.characters,
        parsed_array(scan, items, had_comma, floats).1.position >= scan.position,
    decreases scan.remaining(), 0int,
{
    lemma_next_token_advances(scan, floats);
    let (token, next) = required_token(scan, floats);
    match token {
        Err(_) => {},
        Ok(token) => if had_comma {
            if items.len() == 0 && token.kind is EndArray {
            } else {
                lemma_parsed_value_advances(next, Some(token), floats);
                let (value, after) = parsed_value(next, Some(token), floats);
                match value {
                    Err(_) => {},
                    Ok(value) => {
                        lemma_parsed_array_advances(after, items.push(value), false, floats);
                    },
                }
            }
        } else {
            match token.kind {
                TokenKind::ValueSeparator => lemma_parsed_array_advances(
                    next,
                    items,
                    true,
                    floats,
                ),
                _ => {},
            }
        },
    }
}

/// Giving a key a value keeps an object free of keys that come twice.
pub proof fn lemma_inserted_throughout(entries: Seq<(Seq<char>, Json)>, key: Seq<char>, value: Json)
    requires
        distinct_throughout(Json::Object(entries)),
        distinct_throughout(value),
    ensures
        distinct_throughout(Json::Object(inserted(entries, key, value))),
{
    let grown = inserted(entries, key, value);
    lemma_inserted(entries, key, value);
    lemma_key_index(entries, key);
    assert forall|i: int| 0 <= i < grown.len() implies distinct_throughout(
        (#[trigger] grown[i]).1,
    ) by {
        if grown[i] != (key, value) {
            assert(grown[i] == entries[i]);
        }
    }
}

/// Adding an item keeps an array free of keys that come twice.
pub proof fn lemma_pushed_throughout(items: Seq<Json>, value: Json)
    requires
        distinct_throughout(Json::Array(items)),
        distinct_throughout(value),
    ensures
        distinct_throughout(Json::Array(items.push(value))),
{
    let grown = items.push(value);
    let read = Json::Array(items);
    assert(read->Array_0 == items);
    assert forall|i: int| 0 <= i < grown.len() implies distinct_throughout(#[trigger] grown[i]) by {
        if i < items.len() {
            assert(grown[i] == items[i]);
        }
    }
}

/// No object of a parsed value has a key twice: a key that comes again
/// takes the place of the one before.
pub proof fn lemma_parsed_value_distinct(
    scan: Scan,
    token: Option<TokenView>,
    floats: spec_fn(Seq<char>) -> Option<u64>,
)
    requires
        scan.within(),
    ensures
        parsed_value(scan, token, floats).0 matches Ok(value) ==> distinct_throughout(value),
    decreases scan.remaining(), 2int,
{
    lemma_next_token_advances(scan, floats);
    match token {
        Some(token) => lemma_parsed_token_distinct(scan, token, floats),
        None => {
            let (token, next) = required_token(scan, floats);
            match token {
                Ok(token) => lemma_parsed_token_distinct(next, token, floats),
                Err(_) => {},
            }
        },
    }
}

/// No object of a value parsed from a token on has a key twice.
pub proof fn lemma_parsed_token_distinct(
    scan: Scan,
    token: TokenView,
    floats: spec_fn(Seq<char>) -> Option<u64>,
)
    requires
        scan.within(),
    ensures
        parsed_token(scan, token, floats).0 matches Ok(value) ==> distinct_throughout(value),
    decreases scan.remaining(), 1int,
{
    match token.kind {
        TokenKind::BeginObject => lemma_parsed_object_distinct(scan, Seq::empty(), true, floats),
        TokenKind::BeginArray => lemma_parsed_array_distinct(scan, Seq::empty(), true, floats),
        _ => {},
    }
}

/// No object of a parsed object has a key twice, where none of the entries
/// read before has.
pub proof fn lemma_parsed_object_distinct(
    scan: Scan,
    entries: Seq<(Seq<char>, Json)>,
    had_comma: bool,
    floats: spec_fn(Seq<char>) -> Option<u64>,
)
    requires
        scan.within(),
        distinct_throughout(Json::Object(entries)),
    ensures
        parsed_object(scan, entries, had_comma, floats).0 matches Ok(value) ==> distinct_throughout(
            value,
        ),
    decreases scan.remaining(), 0int,
{
    lemma_next_token_advances(scan, floats);
    let (token, next) = required_token(scan, floats);
    match token {
        Err(_) => {},
        Ok(token) => if had_comma {
            if entries.len() == 0 && token.kind is EndObject {
            } else {
                lemma_parsed_property_advances(next, token, floats);
                lemma_parsed_property_distinct(next, token, floats);
                let (property, after) = parsed_property(next, token, floats);
                match property {
                    Err(_) => {},
                    Ok((key, value)) => {
                        let grown = inserted(entries, key, value);
                        lemma_inserted_throughout(entries, key, value);
                        lemma_parsed_object_distinct(after, grown, false, floats);
                    },
                }
            }
        } else {
            match token.kind {
                TokenKind::ValueSeparator => lemma_parsed_object_distinct(
                    next,
                    entries,
                    true,
                    floats,
                ),
                _ => {},
            }
        },
    }
}

/// No object of a parsed property has a key twice.
pub proof fn lemma_parsed_property_distinct(
    scan: Scan,
    token: TokenView,
    floats: spec_fn(Seq<char>) -> Option<u64>,
)
    requires
        scan.within(),
    ensures
        parsed_property(scan, token, floats).0 matches Ok(property) ==> distinct_throughout(
            property.1,
        ),
    decreases scan.remaining(), 3int,
{
    lemma_next_token_advances(scan, floats);
    match token.kind {
        TokenKind::String(_) => {
            let (separator, next) = required_token(scan, floats);
            match separator {
                Err(_) => {},
                Ok(separator) => match separator.kind {
                    TokenKind::NameSeparator => lemma_parsed_value_distinct(next, None, floats),
                    _ => {},
                },
            }
        },
        _ => {},
    }
}

/// No object of a parsed array has a key twice, where none of the items
/// read before has.
pub proof fn lemma_parsed_array_distinct(
    scan: Scan,
    items: Seq<Json>,
    had_comma: bool,
    floats: spec_fn(Seq<char>) -> Option<u64>,
)
    requires
        scan.within(),
        distinct_throughout(Json::Array(items)),
    ensures
        parsed_array(scan, items, had_comma, floats).0 matches Ok(value) ==> distinct_throughout(
            value,
        ),
    decreases scan.remaining(), 0int,
{
    lemma_next_token_advances(scan, floats);
    let (token, next) = required_token(scan, floats);
    match token {
        Err(_) => {},
        Ok(token) => if had_comma {
            if items.len() == 0 && token.kind is EndArray {
            } else {
                lemma_parsed_value_advances(next, Some(token), floats);
                lemma_parsed_value_distinct(next, Some(token), floats);
                let (value, after) = parsed_value(next, Some(token), floats);
                match value {
                    Err(_) => {},
                    Ok(value) => {
                        let grown = items.push(value);
                        lemma_pushed_throughout(items, value);
                        lemma_parsed_array_distinct(after, grown, false, floats);
                    },
                }
            }
        } else {
            match token.kind {
                TokenKind::ValueSeparator => lemma_parsed_array_distinct(
                    next,
                    items,
                    true,
                    floats,
                ),
                _ => {},
            }
        },
    }
}

/// The tree that a parsed value stands for, or the fault.
pub open spec fn value_result(result: Result<Value, ParseError>) -> Result<Json, Fault> {
    match result {
        Ok(value) => Ok(value@),
        Err(error) => Err(error@),
    }
}

/// The token that was read, or the fault.
pub open spec fn token_result(result: Result<Token, ParseError>) -> Result<TokenView, Fault> {
    match result {
        Ok(token) => Ok(token@),
        Err(error) => Err(error@),
    }
}

/// The property that was read, or the fault.
pub open spec fn property_result(result: Result<(String, Value), ParseError>) -> Result<
    (Seq<char>, Json),
    Fault,
> {
    match result {
        Ok(property) => Ok((property.0@, property.1@)),
        Err(error) => Err(error@),
    }
}

impl Value {
    /// Parses the value that begins with the tokenizer's next token.
    ///
    /// Where the decoder of the tokenizer reads binary64 values as `floats`
    /// says, the result is the value that the text holds there, or the fault
    /// for which it holds none, and the tokenizer then stands behind what
    /// was read. Where no token to the end of the text is a number literal
    /// that is no integer, the same holds whatever the decoder does. No
    /// object of the value has a key twice.
    pub fn parse<F: Fn(&str) -> Option<u64>>(tokenizer: &mut Tokenizer<F>) -> (result: Result<
        Self,
        ParseError,
    >)
        requires
            old(tokenizer).wf(),
        ensures
            final(tokenizer).wf(),
            final(tokenizer).decoder() == old(tokenizer).decoder(),
            final(tokenizer).scan().characters == old(tokenizer).scan().characters,
            old(tokenizer).scan().position <= final(tokenizer).scan().position
                <= final(tokenizer).scan().characters.len(),
            forall|floats: spec_fn(Seq<char>) -> Option<u64>| #[trigger]
                reads_floats(old(tokenizer).decoder(), floats) ==> (
                    value_result(result),
                    final(tokenizer).scan(),
                ) == parsed_value(old(tokenizer).scan(), None, floats),
            old(tokenizer).scan().float_free() ==> final(tokenizer).scan().float_free() && (
                value_result(result),
                final(tokenizer).scan(),
            ) == parsed_value(old(tokenizer).scan(), None, no_floats()),
            result matches Ok(value) ==> distinct_throughout(value@),
    {
        parse_value(tokenizer, None)
    }
}

/// Parses the value that a text holds at its beginning, reading binary64
/// values with `decode`.
///
/// Where `decode` reads them as `floats` says, the result is the value that
/// the text holds, or the fault for which it holds none. Where no token of
/// the text is a number literal that is no integer, the same holds whatever
/// `decode` does. No object of the value has a key twice.
pub fn parse<F: Fn(&str) -> Option<u64>>(input: &str, decode: F) -> (result: Result<
    Value,
    ParseError,
>)
    requires
        input@.len() < usize::MAX,
        forall|text: &str| call_requires(decode, (text,)),
    ensures
        forall|floats: spec_fn(Seq<char>) -> Option<u64>| #[trigger]
            reads_floats(decode, floats) ==> value_result(result) == parsed_text(input@, floats),
        Scan::start(input@).float_free() ==> value_result(result) == parsed_text(
            input@,
            no_floats(),
        ),
        result matches Ok(value) ==> distinct_throughout(value@),
{
    let mut tokenizer = Tokenizer::new(String::from_str(input), decode);
    Value::parse(&mut tokenizer)
}

/// The names of the kinds of token with which a value begins.
fn value_expectations() -> (result: Vec<&'static str>)
    ensures
        slice_texts(result@) == value_tokens(),
{
    let expected_tokens = vec!["null", "true", "false", "number", "string", "{", "["];
    assert(slice_texts(expected_tokens@) =~= value_tokens());
    expected_tokens
}

pub fn parse_value<F: Fn(&str) -> Option<u64>>(
    tokenizer: &mut Tokenizer<F>,
    token: Option<Token>,
) -> (result: Result<Value, ParseError>)
    requires
        old(tokenizer).wf(),
    ensures
        final(tokenizer).wf(),
        final(tokenizer).decoder() == old(tokenizer).decoder(),
        final(tokenizer).scan().characters == old(tokenizer).scan().characters,
        old(tokenizer).scan().position <= final(tokenizer).scan().position
            <= final(tokenizer).scan().characters.len(),
        forall|floats: spec_fn(Seq<char>) -> Option<u64>| #[trigger]
            reads_floats(old(tokenizer).decoder(), floats) ==> (
                value_result(result),
                final(tokenizer).scan(),
            ) == parsed_value(old(tokenizer).scan(), token_view(token), floats),
        old(tokenizer).scan().float_free() ==> final(tokenizer).scan().float_free() && (
            value_result(result),
            final(tokenizer).scan(),
        ) == parsed_value(old(tokenizer).scan(), token_view(token), no_floats()),
        result matches Ok(value) ==> distinct_throughout(value@),
    decreases old(tokenizer).scan().remaining(), 2int,
{
    proof {
        tokenizer.lemma_within();
    }
    let ghost given = token_view(token);
    let token = if let Some(token) = token {
        token
    } else {
        match unwrap_token(tokenizer) {
            Ok(token) => token,
            Err(error) => {
                return Err(error);
            },
        }
    };
    let ghost begun = tokenizer.scan();
    assert forall|floats: spec_fn(Seq<char>) -> Option<u64>| #[trigger]
        reads_floats(old(tokenizer).decoder(), floats) implies parsed_value(
        old(tokenizer).scan(),
        given,
        floats,
    ) == parsed_token(begun, token@, floats) by {}
    let value = match token.token_type {
        TokenType::Null => Value::Null,
        TokenType::True => Value::Bool(true),
        TokenType::False => Value::Bool(false),
        TokenType::Number(number) => Value::Number(number),
        TokenType::String(string) => Value::String(string),
        TokenType::BeginObject => match parse_object(tokenizer) {
            Ok(value) => value,
            Err(error) => {
                return Err(error);
            },
        },
        TokenType::BeginArray => match parse_array(tokenizer) {
            Ok(value) => value,
            Err(error) => {
                return Err(error);
            },
        },
        TokenType::Invalid => {
            let expected_tokens = value_expectations();
            return Err(ParseError::InvalidToken(ParseErrorArgs::new(token, expected_tokens)));
        },
        _ => {
            let expected_tokens = value_expectations();
            return Err(ParseError::UnexpectedToken(ParseErrorArgs::new(token, expected_tokens)));
        },
    };
    Ok(value)
}

pub fn parse_object<F: Fn(&str) -> Option<u64>>(tokenizer: &mut Tokenizer<F>) -> (result: Result<
    Value,
    ParseError,
>)
    requires
        old(tokenizer).wf(),
    ensures
        final(tokenizer).wf(),
        final(tokenizer).decoder() == old(tokenizer).decoder(),
        final(tokenizer).scan().characters == old(tokenizer).scan().characters,
        old(tokenizer).scan().position <= final(tokenizer).scan().position
            <= final(tokenizer).scan().characters.len(),
        forall|floats: spec_fn(Seq<char>) -> Option<u64>| #[trigger]
            reads_floats(old(tokenizer).decoder(), floats) ==> (
                value_result(result),
                final(tokenizer).scan(),
            ) == parsed_object(old(tokenizer).scan(), Seq::empty(), true, floats),
        old(tokenizer).scan().float_free() ==> final(tokenizer).scan().float_free() && (
            value_result(result),
            final(tokenizer).scan(),
        ) == parsed_object(old(tokenizer).scan(), Seq::empty(), true, no_floats()),
        result matches Ok(value) ==> distinct_throughout(value@),
    decreases old(tokenizer).scan().remaining(), 0int,
{
    proof {
        tokenizer.lemma_within();
    }
    let mut properties = Object::new();
    let mut had_comma = true;
    loop
        invariant
            tokenizer.wf(),
            tokenizer.decoder() == old(tokenizer).decoder(),
            tokenizer.scan().characters == old(tokenizer).scan().characters,
            old(tokenizer).scan().position <= tokenizer.scan().position
                <= tokenizer.scan().characters.len(),
            forall|floats: spec_fn(Seq<char>) -> Option<u64>| #[trigger]
                reads_floats(old(tokenizer).decoder(), floats) ==> parsed_object(
                    tokenizer.scan(),
                    properties@,
                    had_comma,
                    floats,
                ) == parsed_object(old(tokenizer).scan(), Seq::empty(), true, floats),
            old(tokenizer).scan().float_free() ==> tokenizer.scan().float_free() && parsed_object(
                tokenizer.scan(),
                properties@,
                had_comma,
                no_floats(),
            ) == parsed_object(old(tokenizer).scan(), Seq::empty(), true, no_floats()),
            distinct_throughout(Json::Object(properties@)),
        decreases tokenizer.scan().remaining(),
    {
        let token = match unwrap_token(tokenizer) {
            Ok(token) => token,
            Err(error) => {
                return Err(error);
            },
        };
        if had_comma {
            if properties.len() == 0 && matches!(token.token_type, TokenType::EndObject) {
                return Ok(Value::Object(properties));
            }
            let (key, value) = match parse_property(tokenizer, token) {
                Ok(property) => property,
                Err(error) => {
                    return Err(error);
                },
            };
            proof {
                lemma_inserted_throughout(properties@, key@, value@);
            }
            properties.insert(key, value);
        } else {
            match token.token_type {
                TokenType::EndObject => {
                    return Ok(Value::Object(properties));
                },
                TokenType::ValueSeparator => {},
                _ => {
                    let expected_tokens = vec!["}", ","];
                    assert(slice_texts(expected_tokens@) =~= object_tokens());
                    return Err(
                        ParseError::UnexpectedToken(ParseErrorArgs::new(token, expected_tokens)),
                    );
                },
            }
        }
        had_comma = !had_comma;
    }
}

pub fn parse_property<F: Fn(&str) -> Option<u64>>(
    tokenizer: &mut Tokenizer<F>,
    token: Token,
) -> (result: Result<(String, Value), ParseError>)
    requires
        old(tokenizer).wf(),
    ensures
        final(tokenizer).wf(),
        final(tokenizer).decoder() == old(tokenizer).decoder(),
        final(tokenizer).scan().characters == old(tokenizer).scan().characters,
        old(tokenizer).scan().position <= final(tokenizer).scan().position
            <= final(tokenizer).scan().characters.len(),
        forall|floats: spec_fn(Seq<char>) -> Option<u64>| #[trigger]
            reads_floats(old(tokenizer).decoder(), floats) ==> (
                property_result(result),
                final(tokenizer).scan(),
            ) == parsed_property(old(tokenizer).scan(), token@, floats),
        old(tokenizer).scan().float_free() ==> final(tokenizer).scan().float_free() && (
            property_result(result),
            final(tokenizer).scan(),
        ) == parsed_property(old(tokenizer).scan(), token@, no_floats()),
        result matches Ok(property) ==> distinct_throughout(property.1@),
    decreases old(tokenizer).scan().remaining(), 3int,
{
    proof {
        tokenizer.lemma_within();
    }
    let key = match token.token_type {
        TokenType::String(key) => key,
        _ => {
            let expected_tokens = vec!["string"];
            assert(slice_texts(expected_tokens@) =~= seq!["string"@]);
            return Err(ParseError::UnexpectedToken(ParseErrorArgs::new(token, expected_tokens)));
        },
    };
    let token = match unwrap_token(tokenizer) {
        Ok(token) => token,
        Err(error) => {
            return Err(error);
        },
    };
    match token.token_type {
        TokenType::NameSeparator => {},
        _ => {
            let expected_tokens = vec![":"];
            assert(slice_texts(expected_tokens@) =~= seq![":"@]);
            return Err(ParseError::UnexpectedToken(ParseErrorArgs::new(token, expected_tokens)));
        },
    }
    let value = match parse_value(tokenizer, None) {
        Ok(value) => value,
        Err(error) => {
            return Err(error);
        },
    };
    Ok((key, value))
}

pub fn parse_array<F: Fn(&str) -> Option<u64>>(tokenizer: &mut Tokenizer<F>) -> (result: Result<
    Value,
    ParseError,
>)
    requires
        old(tokenizer).wf(),
    ensures
        final(tokenizer).wf(),
        final(tokenizer).decoder() == old(tokenizer).decoder(),
        final(tokenizer).scan().characters == old(tokenizer).scan().characters,
        old(tokenizer).scan().position <= final(tokenizer).scan().position
            <= final(tokenizer).scan().characters.len(),
        forall|floats: spec_fn(Seq<char>) -> Option<u64>| #[trigger]
            reads_floats(old(tokenizer).decoder(), floats) ==> (
                value_result(result),
                final(tokenizer).scan(),
            ) == parsed_array(old(tokenizer).scan(), Seq::empty(), true, floats),
        old(tokenizer).scan().float_free() ==> final(tokenizer).scan().float_free() && (
            value_result(result),
            final(tokenizer).scan(),
        ) == parsed_array(old(tokenizer).scan(), Seq::empty(), true, no_floats()),
        result matches Ok(value) ==> distinct_throughout(value@),
    decreases old(tokenizer).scan().remaining(), 0int,
{
    proof {
        tokenizer.lemma_within();
    }
    let mut values: Vec<Value> = Vec::new();
    let mut had_comma = true;
    loop
        invariant
            tokenizer.wf(),
            tokenizer.decoder() == old(tokenizer).decoder(),
            tokenizer.scan().characters == old(tokenizer).scan().characters,
            old(tokenizer).scan().position <= tokenizer.scan().position
                <= tokenizer.scan().characters.len(),
            forall|floats: spec_fn(Seq<char>) -> Option<u64>| #[trigger]
                reads_floats(old(tokenizer).decoder(), floats) ==> parsed_array(
                    tokenizer.scan(),
                    items_view(values@),
                    had_comma,
                    floats,
                ) == parsed_array(old(tokenizer).scan(), Seq::empty(), true, floats),
            old(tokenizer).scan().float_free() ==> tokenizer.scan().float_free() && parsed_array(
                tokenizer.scan(),
                items_view(values@),
                had_comma,
                no_floats(),
            ) == parsed_array(old(tokenizer).scan(), Seq::empty(), true, no_floats()),
            distinct_throughout(Json::Array(items_view(values@))),
        decreases tokenizer.scan().remaining(),
    {
        let token = match unwrap_token(tokenizer) {
            Ok(token) => token,
            Err(error) => {
                return Err(error);
            },
        };
        proof {
            lemma_items_view(values@);
        }
        if had_comma {
            if values.len() == 0 && matches!(token.token_type, TokenType::EndArray) {
                return Ok(Value::Array(values));
            }
            let value = match parse_value(tokenizer, Some(token)) {
                Ok(value) => value,
                Err(error) => {
                    return Err(error);
                },
            };
            let ghost before = values@;
            proof {
                lemma_pushed_throughout(items_view(before), value@);
            }
            values.push(value);
            assert(values@.drop_last() == before);
        } else {
            match token.token_type {
                TokenType::EndArray => {
                    return Ok(Value::Array(values));
                },
                TokenType::ValueSeparator => {},
                _ => {
                    let expected_tokens = vec!["]", ","];
                    assert(slice_texts(expected_tokens@) =~= array_tokens());
                    return Err(
                        ParseError::UnexpectedToken(ParseErrorArgs::new(token, expected_tokens)),
                    );
                },
            }
        }
        had_comma = !had_comma;
    }
}

pub fn unwrap_token<F: Fn(&str) -> Option<u64>>(tokenizer: &mut Tokenizer<F>) -> (result: Result<
    Token,
    ParseError,
>)
    requires
        old(tokenizer).wf(),
    ensures
        final(tokenizer).wf(),
        final(tokenizer).decoder() == old(tokenizer).decoder(),
        final(tokenizer).scan().characters == old(tokenizer).scan().characters,
        old(tokenizer).scan().position <= final(tokenizer).scan().position
            <= final(tokenizer).scan().characters.len(),
        result is Ok ==> old(tokenizer).scan().position < final(tokenizer).scan().position,
        forall|floats: spec_fn(Seq<char>) -> Option<u64>| #[trigger]
            reads_floats(old(tokenizer).decoder(), floats) ==> (
                token_result(result),
                final(tokenizer).scan(),
            ) == required_token(old(tokenizer).scan(), floats),
        exists|bits: Option<u64>|
            (token_result(result), final(tokenizer).scan()) == required(
                #[trigger] old(tokenizer).scan().skip_whitespace().token_here(bits),
            ),
        !old(tokenizer).scan().asks_decoder() ==> (
            token_result(result),
            final(tokenizer).scan(),
        ) == required_token(old(tokenizer).scan(), no_floats()),
        old(tokenizer).scan().float_free() ==> final(tokenizer).scan().float_free(),
{
    proof {
        if tokenizer.scan().float_free() {
            lemma_float_free_next(tokenizer.scan(), no_floats());
        }
    }
    let ghost decode = tokenizer.decoder();
    let token = tokenizer.next_token();
    proof {
        if !old(tokenizer).scan().asks_decoder() {
            assert(reads_floats(decode, no_floats()) || !old(tokenizer).scan().asks_decoder());
        }
        let bits = choose|bits: Option<u64>|
            (token_view(token), tokenizer.scan()) == #[trigger] old(
                tokenizer
            ).scan().skip_whitespace().token_here(bits);
        assert((token_view(token), tokenizer.scan()) == old(
            tokenizer
        ).scan().skip_whitespace().token_here(bits));
    }
    if let Some(token) = token {
        return Ok(token);
    }
    Err(
        ParseError::UnexpectedEndOfFile(
            Location { line: tokenizer.line(), column: tokenizer.column(), length: 1 },
        ),
    )
}

} // verus!
