//! Why parsing failed, and the line that says so to a reader.

use vstd::prelude::*;
use crate::decimal::{decimal_text, write_decimal};
use crate::scan::{Location, TokenView};
use crate::tokenizer::Token;

verus! {

/// Why parsing failed: the text ended where a token had to follow, or a
/// token stood where the grammar has no place for it, or a token was none.
/// The last two come with the token and the kinds of token that had a place
/// there.
pub ghost enum Fault {
    UnexpectedEndOfFile(Location),
    UnexpectedToken(TokenView, Seq<Seq<char>>),
    InvalidToken(TokenView, Seq<Seq<char>>),
}

/// The offending token and the kinds of token that were expected in its
/// place.
#[derive(Debug, PartialEq)]
pub struct ParseErrorArgs {
    token: Token,
    expected_tokens: Vec<String>,
}

/// The character sequences of `strings`.
pub open spec fn texts(strings: Seq<String>) -> Seq<Seq<char>> {
    strings.map_values(|string: String| string@)
}

/// The character sequences of `slices`.
pub open spec fn slice_texts(slices: Seq<&str>) -> Seq<Seq<char>> {
    slices.map_values(|slice: &str| slice@)
}

impl View for ParseErrorArgs {
    type V = (TokenView, Seq<Seq<char>>);

    closed spec fn view(&self) -> (TokenView, Seq<Seq<char>>) {
        (self.token@, texts(self.expected_tokens@))
    }
}

impl ParseErrorArgs {
    pub fn new(token: Token, expected_tokens: Vec<&str>) -> (result: Self)
        ensures
            result@ == (token@, slice_texts(expected_tokens@)),
    {
        let mut owned: Vec<String> = Vec::new();
        let mut index: usize = 0;
        while index < expected_tokens.len()
            invariant
                index <= expected_tokens.len(),
                owned.len() == index,
                texts(owned@) == slice_texts(expected_tokens@.take(index as int)),
            decreases expected_tokens.len() - index,
        {
            let ghost before = owned@;
            owned.push(String::from_str(expected_tokens[index]));
            index += 1;
            assert forall|k: int| 0 <= k < index implies texts(owned@)[k] == slice_texts(
                expected_tokens@.take(index as int),
            )[k] by {
                if k < index - 1 {
                    assert(texts(before)[k] == slice_texts(expected_tokens@.take(index - 1))[k]);
                }
            }
        }
        Self { token, expected_tokens: owned }
    }

    /// The offending token.
    pub fn token(&self) -> (result: &Token)
        ensures
            result@ == self@.0,
    {
        &self.token
    }

    /// The kinds of token that were expected.
    pub fn expected_tokens(&self) -> (result: &Vec<String>)
        ensures
            texts(result@) == self@.1,
    {
        &self.expected_tokens
    }
}

#[derive(Debug, PartialEq)]
pub enum ParseError {
    UnexpectedEndOfFile(Location),
    UnexpectedToken(ParseErrorArgs),
    InvalidToken(ParseErrorArgs),
}

impl View for ParseError {
    type V = Fault;

    open spec fn view(&self) -> Fault {
        match self {
            ParseError::UnexpectedEndOfFile(location) => Fault::UnexpectedEndOfFile(*location),
            ParseError::UnexpectedToken(args) => Fault::UnexpectedToken(args@.0, args@.1),
            ParseError::InvalidToken(args) => Fault::InvalidToken(args@.0, args@.1),
        }
    }
}

/// What stands before the item at `index` of a list of `length` items: the
/// word "or" before the last, a comma before the others but the first.
pub open spec fn separator(index: int, length: int) -> Seq<char> {
    if index + 1 == length {
        " or "@
    } else if index > 0 {
        ", "@
    } else {
        Seq::empty()
    }
}

/// The first `count` of the expected kinds, each between backticks, with
/// what separates them.
pub open spec fn expected_list(expected: Seq<Seq<char>>, count: nat) -> Seq<char>
    decreases count,
{
    if count == 0 {
        Seq::empty()
    } else {
        expected_list(expected, (count - 1) as nat) + separator(count - 1, expected.len() as int)
            + "`"@ + expected[count - 1] + "`"@
    }
}

/// The sentence that names the expected kinds of token.
pub open spec fn expected_text(expected: Seq<Seq<char>>) -> Seq<char> {
    "Expected "@ + expected_list(expected, expected.len())
}

/// The header that names the line and column of a location.
pub open spec fn location_text(location: Location) -> Seq<char> {
    ">> Parsing Error on line "@ + decimal_text(location.line as nat) + " column "@ + decimal_text(
        location.column as nat,
    )
}

/// The line that reports a fault.
pub open spec fn fault_text(fault: Fault) -> Seq<char> {
    match fault {
        Fault::UnexpectedEndOfFile(location) => location_text(location)
            + ": Unexpected end of file"@,
        Fault::UnexpectedToken(token, expected) => location_text(token.location) + ": "@
            + expected_text(expected) + ". Received token `"@ + token.raw + "`"@,
        Fault::InvalidToken(token, expected) => location_text(token.location) + ": "@
            + expected_text(expected) + ". Received invalid token `"@ + token.raw + "`"@,
    }
}

impl ParseError {
    /// The line that reports the error to a reader: where it is, what was
    /// expected there, and the text of the token that stood there.
    pub fn to_string(&self) -> (result: String)
        ensures
            result@ == fault_text(self@),
    {
        match self {
            ParseError::UnexpectedEndOfFile(location) => {
                let mut result = format_location(location);
                result.append(": Unexpected end of file");
                result
            },
            ParseError::UnexpectedToken(args) => {
                let mut result = format_location(&args.token().location);
                result.append(": ");
                result.append(format_expected(args.expected_tokens()).as_str());
                result.append(". Received token `");
                result.append(args.token().value.as_str());
                result.append("`");
                result
            },
            ParseError::InvalidToken(args) => {
                let mut result = format_location(&args.token().location);
                result.append(": ");
                result.append(format_expected(args.expected_tokens()).as_str());
                result.append(". Received invalid token `");
                result.append(args.token().value.as_str());
                result.append("`");
                result
            },
        }
    }
}

pub fn format_expected(expected_tokens: &Vec<String>) -> (result: String)
    ensures
        result@ == expected_text(texts(expected_tokens@)),
{
    let mut result = String::from_str("Expected ");
    let mut index: usize = 0;
    let ghost expected = texts(expected_tokens@);
    while index < expected_tokens.len()
        invariant
            index <= expected_tokens.len(),
            expected == texts(expected_tokens@),
            result@ == "Expected "@ + expected_list(expected, index as nat),
        decreases expected_tokens.len() - index,
    {
        if index + 1 == expected_tokens.len() {
            result.append(" or ");
        } else if index > 0 {
            result.append(", ");
        }
        result.append("`");
        result.append(expected_tokens[index].as_str());
        result.append("`");
        index += 1;
    }
    result
}

pub fn format_location(location: &Location) -> (result: String)
    ensures
        result@ == location_text(*location),
{
    let mut result = String::from_str(">> Parsing Error on line ");
    result.append(write_decimal(location.line as u64).as_str());
    result.append(" column ");
    result.append(write_decimal(location.column as u64).as_str());
    result
}

} // verus!
