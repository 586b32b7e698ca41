//! A JSON text engine: a tokenizer that turns characters into tokens, a
//! recursive-descent parser that builds a value tree from them, and a
//! serializer that renders a tree as indented JSON text.
//!
//! What each function does is stated over sequences of characters and a
//! mathematical tree (`scan`, `parser`, `stringifier`, `value::Json`), and
//! `roundtrip` proves that reading inverts writing: the parser reads the
//! text of a value as that value.
//!
//! Binary floating point is not part of this library. A number that is no
//! 64-bit integer is held by the bit pattern of its binary64 value. The
//! caller supplies the function that reads a decimal literal as such a bit
//! pattern, and the one that writes a bit pattern as text: the parser and
//! the formatter of the standard library's double-precision type serve.
//! What is stated of a result that holds such a number is stated in terms of
//! what these two functions give.

pub mod text;
pub mod decimal;
pub mod number;
pub mod scan;
pub mod tokenizer;
pub mod value;
pub mod parse_error;
pub mod parser;
pub mod stringifier;
pub mod roundtrip;

pub use number::Number;
pub use parse_error::{ParseError, ParseErrorArgs};
pub use parser::parse;
pub use stringifier::JsonStringifier;
pub use tokenizer::{Location, Token, TokenType, Tokenizer};
pub use value::{Object, Value};
