//! What the tokenizer does, stated over sequences of characters: the tokens
//! of a text and the position after each.

use vstd::prelude::*;
use crate::number::{Number, classified, integer_literal};
use crate::decimal::is_digit;
use crate::text::is_scalar_value;

verus! {

/// What stands for the character at a position at which the text has none.
/// A text may hold this character as any other.
pub const EOF: char = '\u{0}';

/// The extent of a token in the text: the line and column of its first
/// character, both counted from 1, and the number of characters read for it.
#[derive(Debug, PartialEq, Eq, Clone, Copy)]
pub struct Location {
    pub line: usize,
    pub column: usize,
    pub length: usize,
}

/// The kind of a token, with its payload.
pub ghost enum TokenKind {
    BeginArray,
    EndArray,
    BeginObject,
    EndObject,
    NameSeparator,
    ValueSeparator,
    False,
    True,
    Null,
    Number(Number),
    String(Seq<char>),
    Invalid,
}

/// A token: its kind, the text it was read from, and where that stood.
pub ghost struct TokenView {
    pub kind: TokenKind,
    pub raw: Seq<char>,
    pub location: Location,
}

/// Whether `character` is a letter of the Latin alphabet.
pub open spec fn letter(character: char) -> bool {
    'a' <= character <= 'z' || 'A' <= character <= 'Z'
}

/// Whether a number literal may hold `character`.
pub open spec fn number_character(character: char) -> bool {
    is_digit(character) || character == '-' || character == '+' || character == '.' || character
        == 'e' || character == 'E'
}

/// Whether a number literal may begin with `character`.
pub open spec fn number_start(character: char) -> bool {
    is_digit(character) || character == '-' || character == '+'
}

/// Whether `character` is a hexadecimal digit.
pub open spec fn hex_character(character: char) -> bool {
    is_digit(character) || 'a' <= character <= 'f' || 'A' <= character <= 'F'
}

/// Whether the tokenizer passes over `character` between tokens.
pub open spec fn whitespace(character: char) -> bool {
    character == ' ' || character == '\t' || character == '\n' || character == '\r'
}

/// The class of the characters of a keyword.
pub open spec fn letters() -> spec_fn(char) -> bool {
    |character: char| letter(character)
}

/// The class of the characters of a number literal.
pub open spec fn number_characters() -> spec_fn(char) -> bool {
    |character: char| number_character(character)
}

/// The number that a hexadecimal digit stands for.
pub open spec fn hex_value(character: char) -> int {
    if is_digit(character) {
        character as int - '0' as int
    } else if 'a' <= character <= 'f' {
        character as int - 'a' as int + 10
    } else {
        character as int - 'A' as int + 10
    }
}

/// The character that stands behind a backslash for `character`, for the
/// eight escapes of one character.
pub open spec fn simple_escape(character: char) -> Option<char> {
    if character == '"' {
        Some('"')
    } else if character == '\\' {
        Some('\\')
    } else if character == '/' {
        Some('/')
    } else if character == 'b' {
        Some('\u{8}')
    } else if character == 'f' {
        Some('\u{c}')
    } else if character == 'n' {
        Some('\n')
    } else if character == 'r' {
        Some('\r')
    } else if character == 't' {
        Some('\t')
    } else {
        None
    }
}

/// The kind of a run of letters.
pub open spec fn keyword(literal: Seq<char>) -> TokenKind {
    if literal == seq!['t', 'r', 'u', 'e'] {
        TokenKind::True
    } else if literal == seq!['f', 'a', 'l', 's', 'e'] {
        TokenKind::False
    } else if literal == seq!['n', 'u', 'l', 'l'] {
        TokenKind::Null
    } else {
        TokenKind::Invalid
    }
}

/// The character at `position`, or `EOF` where the text has none there.
pub open spec fn character_at(characters: Seq<char>, position: int) -> char {
    if 0 <= position < characters.len() {
        characters[position]
    } else {
        EOF
    }
}

/// The length of the longest run of characters of `class` that begins at
/// `from`.
pub open spec fn run_length(characters: Seq<char>, from: int, class: spec_fn(char) -> bool) -> nat
    decreases characters.len() - from,
{
    if 0 <= from < characters.len() && class(characters[from]) {
        1 + run_length(characters, from + 1, class)
    } else {
        0
    }
}

/// How many of the four characters from `from` on are hexadecimal digits,
/// counted up to the first that is none.
pub open spec fn hex_run(characters: Seq<char>, from: int) -> int {
    if !hex_character(character_at(characters, from)) {
        0
    } else if !hex_character(character_at(characters, from + 1)) {
        1
    } else if !hex_character(character_at(characters, from + 2)) {
        2
    } else if !hex_character(character_at(characters, from + 3)) {
        3
    } else {
        4
    }
}

/// The number that the four hexadecimal digits from `from` on denote.
pub open spec fn hex_number(characters: Seq<char>, from: int) -> int {
    4096 * hex_value(character_at(characters, from)) + 256 * hex_value(
        character_at(characters, from + 1),
    ) + 16 * hex_value(character_at(characters, from + 2)) + hex_value(
        character_at(characters, from + 3),
    )
}

/// Whether `code` is the first half of a surrogate pair.
pub open spec fn high_surrogate(code: int) -> bool {
    0xD800 <= code <= 0xDBFF
}

/// Whether `code` is the second half of a surrogate pair.
pub open spec fn low_surrogate(code: int) -> bool {
    0xDC00 <= code <= 0xDFFF
}

/// The code point that a surrogate pair stands for.
pub open spec fn surrogate_pair(high: int, low: int) -> int {
    0x10000 + (high - 0xD800) * 0x400 + (low - 0xDC00)
}

/// What reading an escape gave: the character it stands for, or none where
/// it is no escape, and the position of the last character read for it.
pub ghost struct Escape {
    pub character: Option<char>,
    pub cursor: int,
}

/// Reads the escape of a `u` and four hexadecimal digits whose `u` stands at
/// `at`, and with it a second one that follows a high surrogate at once. The two then stand for one
/// character, if the second is a low surrogate. A surrogate alone stands
/// for none.
#[verifier::opaque]
pub open spec fn unicode_escape(characters: Seq<char>, at: int) -> Escape {
    let first = hex_run(characters, at + 1);
    let high = hex_number(characters, at + 1);
    if first < 4 {
        Escape { character: None, cursor: at + 1 + first }
    } else if high_surrogate(high) && character_at(characters, at + 5) == '\\' && character_at(
        characters,
        at + 6,
    ) == 'u' {
        let second = hex_run(characters, at + 7);
        let low = hex_number(characters, at + 7);
        if second < 4 {
            Escape { character: None, cursor: at + 7 + second }
        } else if low_surrogate(low) {
            Escape { character: Some(surrogate_pair(high, low) as char), cursor: at + 10 }
        } else {
            Escape { character: None, cursor: at + 10 }
        }
    } else if is_scalar_value(high) {
        Escape { character: Some(high as char), cursor: at + 4 }
    } else {
        Escape { character: None, cursor: at + 4 }
    }
}

/// Reads the escape whose backslash stands at `at`.
#[verifier::opaque]
pub open spec fn escape(characters: Seq<char>, at: int) -> Escape {
    let character = character_at(characters, at + 1);
    if simple_escape(character) is Some {
        Escape { character: simple_escape(character), cursor: at + 1 }
    } else if character == 'u' {
        unicode_escape(characters, at + 1)
    } else {
        Escape { character: None, cursor: at + 1 }
    }
}

/// An escape ends behind its backslash, and one that stands for a character
/// ends within the text.
pub proof fn lemma_escape_advances(characters: Seq<char>, at: int)
    requires
        0 <= at,
    ensures
        escape(characters, at).cursor > at,
        escape(characters, at).character is Some ==> escape(characters, at).cursor
            < characters.len(),
{
    reveal(escape);
    reveal(unicode_escape);
}

/// What reading a string gave: the characters read, escapes resolved, the
/// quotes among them; the position behind the last character read; and
/// whether the closing quote was found.
pub ghost struct StringScan {
    pub decoded: Seq<char>,
    pub end: int,
    pub closed: bool,
}

/// Reads a string on from `position`, `decoded` being what was read of it
/// before. The string ends with a quote that is not its first character, and
/// fails where the text ends or an escape is none.
pub open spec fn scan_string(characters: Seq<char>, position: int, decoded: Seq<char>) -> StringScan
    decreases characters.len() - position,
{
    let character = character_at(characters, position);
    if position < 0 || position >= characters.len() {
        StringScan { decoded, end: position, closed: false }
    } else if character == '\\' {
        let escaped = escape(characters, position);
        proof {
            lemma_escape_advances(characters, position);
        }
        match escaped.character {
            Some(resolved) => scan_string(characters, escaped.cursor + 1, decoded.push(resolved)),
            None => StringScan { decoded, end: escaped.cursor, closed: false },
        }
    } else if character == '"' && decoded.len() >= 1 {
        StringScan { decoded: decoded.push(character), end: position + 1, closed: true }
    } else {
        scan_string(characters, position + 1, decoded.push(character))
    }
}

/// The location with the given line, column and length.
pub open spec fn located(line: int, column: int, length: int) -> Location {
    Location { line: line as usize, column: column as usize, length: length as usize }
}

/// A place in a text: the text, the position of the character to read next,
/// and the line and column at which it stands.
pub ghost struct Scan {
    pub characters: Seq<char>,
    pub position: int,
    pub line: int,
    pub column: int,
}

impl Scan {
    /// The beginning of a text.
    pub open spec fn start(characters: Seq<char>) -> Scan {
        Scan { characters, position: 0, line: 1, column: 1 }
    }

    /// The character to read next, where the text has not ended.
    pub open spec fn current(self) -> char {
        character_at(self.characters, self.position)
    }

    /// Whether the text has ended here.
    pub open spec fn at_end(self) -> bool {
        self.position < 0 || self.position >= self.characters.len()
    }

    /// How many characters are left to read.
    pub open spec fn remaining(self) -> nat {
        if self.position < self.characters.len() {
            (self.characters.len() - self.position) as nat
        } else {
            0
        }
    }

    /// The place `count` characters on, in the same line.
    pub open spec fn advance(self, count: int) -> Scan {
        Scan { position: self.position + count, column: self.column + count, ..self }
    }

    /// The place behind the whitespace that stands here. A line feed and a
    /// carriage return each begin a line.
    pub open spec fn skip_whitespace(self) -> Scan
        decreases self.remaining(),
    {
        let character = self.current();
        if self.position < 0 || self.position >= self.characters.len() {
            self
        } else if character == ' ' || character == '\t' {
            self.advance(1).skip_whitespace()
        } else if character == '\n' || character == '\r' {
            Scan { position: self.position + 1, line: self.line + 1, column: 1, ..self }
                .skip_whitespace()
        } else {
            self
        }
    }

    /// The token of the given kind and text that ends before `end`, and the
    /// place behind it.
    pub open spec fn token(self, kind: TokenKind, raw: Seq<char>, end: int) -> (
        Option<TokenView>,
        Scan,
    ) {
        (
            Some(
                TokenView {
                    kind,
                    raw,
                    location: located(self.line, self.column, end - self.position),
                },
            ),
            self.advance(end - self.position),
        )
    }

    /// The token that is the one character here.
    pub open spec fn plain_token(self, kind: TokenKind) -> (Option<TokenView>, Scan) {
        self.token(kind, seq![self.current()], self.position + 1)
    }

    /// The run of letters that begins here.
    pub open spec fn letter_run(self) -> Seq<char> {
        self.characters.subrange(
            self.position,
            self.position + run_length(self.characters, self.position, letters()),
        )
    }

    /// The run of number characters that begins here.
    pub open spec fn number_literal(self) -> Seq<char> {
        self.characters.subrange(
            self.position,
            self.position + run_length(
                self.characters,
                self.position,
                number_characters(),
            ),
        )
    }

    /// The token that is the run of letters here: a keyword, or invalid.
    pub open spec fn literal_token(self) -> (Option<TokenView>, Scan) {
        let literal = self.letter_run();
        self.token(keyword(literal), literal, self.position + literal.len())
    }

    /// The token that is the run of number characters here, where reading it
    /// as a binary64 value gave `float_bits`: a number, or invalid.
    pub open spec fn number_token(self, float_bits: Option<u64>) -> (Option<TokenView>, Scan) {
        let literal = self.number_literal();
        let kind = match classified(literal, float_bits) {
            Some(number) => TokenKind::Number(number),
            None => TokenKind::Invalid,
        };
        self.token(kind, literal, self.position + literal.len())
    }

    /// The token that is the string here. A string that ends has its
    /// contents, escapes resolved, as its payload and the text read as its
    /// text. One that fails is invalid, and its text is what was read of it
    /// with the escapes resolved.
    pub open spec fn string_token(self) -> (Option<TokenView>, Scan) {
        let read = scan_string(self.characters, self.position, Seq::empty());
        if read.closed {
            self.token(
                TokenKind::String(read.decoded.subrange(1, read.decoded.len() - 1)),
                self.characters.subrange(self.position, read.end),
                read.end,
            )
        } else {
            self.token(TokenKind::Invalid, read.decoded, read.end)
        }
    }

    /// The token that begins here, where this is no whitespace, and the
    /// place behind it; no token where the text ends here. `float_bits` is
    /// what reading the number literal here as a binary64 value gave.
    pub open spec fn token_here(self, float_bits: Option<u64>) -> (Option<TokenView>, Scan) {
        let character = self.current();
        if self.at_end() {
            (None, self)
        } else if character == '[' {
            self.plain_token(TokenKind::BeginArray)
        } else if character == ']' {
            self.plain_token(TokenKind::EndArray)
        } else if character == '{' {
            self.plain_token(TokenKind::BeginObject)
        } else if character == '}' {
            self.plain_token(TokenKind::EndObject)
        } else if character == ':' {
            self.plain_token(TokenKind::NameSeparator)
        } else if character == ',' {
            self.plain_token(TokenKind::ValueSeparator)
        } else if character == '"' {
            self.string_token()
        } else if letter(character) {
            self.literal_token()
        } else if number_start(character) {
            self.number_token(float_bits)
        } else {
            self.plain_token(TokenKind::Invalid)
        }
    }

    /// Whether the next token is a number literal that is no integer: the
    /// one kind of token of which the decoder says what it is.
    pub open spec fn asks_decoder(self) -> bool {
        let here = self.skip_whitespace();
        !here.at_end() && number_start(here.current()) && integer_literal(here.number_literal())
            is None
    }

    /// Whether no token from here to the end of the text is a number literal
    /// that is no integer.
    pub open spec fn float_free(self) -> bool
        decreases self.remaining(),
    {
        let (token, next) = self.next_token(no_floats());
        proof {
            lemma_token_consumes(self, no_floats());
        }
        !self.asks_decoder() && (token is Some ==> next.float_free())
    }

    /// The tokens from here to the end of the text.
    pub open spec fn tokens(self, floats: spec_fn(Seq<char>) -> Option<u64>) -> Seq<TokenView>
        decreases self.remaining(),
    {
        let (token, next) = self.next_token(floats);
        proof {
            lemma_token_consumes(self, floats);
        }
        match token {
            Some(token) => seq![token] + next.tokens(floats),
            None => Seq::empty(),
        }
    }

    /// Whether this is a place of its text.
    pub open spec fn within(self) -> bool {
        0 <= self.position <= self.characters.len()
    }

    /// The next token from here on and the place behind it, where `floats`
    /// says what reading a literal as a binary64 value gives.
    pub open spec fn next_token(self, floats: spec_fn(Seq<char>) -> Option<u64>) -> (
        Option<TokenView>,
        Scan,
    ) {
        let here = self.skip_whitespace();
        here.token_here(floats(here.number_literal()))
    }
}

/// A run ends within the text.
pub proof fn lemma_run_length(characters: Seq<char>, from: int, class: spec_fn(char) -> bool)
    requires
        0 <= from,
    ensures
        from + run_length(characters, from, class) <= characters.len() || run_length(
            characters,
            from,
            class,
        ) == 0,
        forall|k: int|
            from <= k < from + run_length(characters, from, class) ==> class(
                #[trigger] characters[k],
            ),
        !class(character_at(characters, from + run_length(characters, from, class))) || from
            + run_length(characters, from, class) >= characters.len(),
    decreases characters.len() - from,
{
    if from < characters.len() && class(characters[from]) {
        lemma_run_length(characters, from + 1, class);
    }
}

/// Reading a string ends no earlier than it began, and within the text.
pub proof fn lemma_scan_string_advances(characters: Seq<char>, position: int, decoded: Seq<char>)
    requires
        0 <= position <= characters.len(),
    ensures
        position <= scan_string(characters, position, decoded).end <= characters.len(),
    decreases characters.len() - position,
{
    let character = character_at(characters, position);
    if position >= characters.len() {
    } else if character == '\\' {
        let escaped = escape(characters, position);
        lemma_escape_advances(characters, position);
        reveal(escape);
        reveal(unicode_escape);
        match escaped.character {
            Some(resolved) => {
                lemma_scan_string_advances(characters, escaped.cursor + 1, decoded.push(resolved));
            },
            None => {},
        }
    } else if character == '"' && decoded.len() >= 1 {
    } else {
        lemma_scan_string_advances(characters, position + 1, decoded.push(character));
    }
}

/// Skipping whitespace goes forward within the text, and ends before a
/// character that is no whitespace, or with the text.
pub proof fn lemma_skip_whitespace(scan: Scan)
    requires
        scan.within(),
    ensures
        scan.skip_whitespace().within(),
        scan.skip_whitespace().characters == scan.characters,
        scan.skip_whitespace().position >= scan.position,
        !whitespace(scan.skip_whitespace().current()),
    decreases scan.remaining(),
{
    let character = scan.current();
    if scan.position < scan.characters.len() {
        if character == ' ' || character == '\t' {
            lemma_skip_whitespace(scan.advance(1));
        } else if character == '\n' || character == '\r' {
            lemma_skip_whitespace(
                Scan { position: scan.position + 1, line: scan.line + 1, column: 1, ..scan },
            );
        }
    }
}

/// A token ends behind the place where reading it began, within the same
/// text.
pub proof fn lemma_next_token_advances(scan: Scan, floats: spec_fn(Seq<char>) -> Option<u64>)
    requires
        scan.within(),
    ensures
        scan.next_token(floats).1.within(),
        scan.next_token(floats).1.characters == scan.characters,
        scan.next_token(floats).1.position >= scan.position,
        scan.next_token(floats).0 is Some ==> scan.next_token(floats).1.position > scan.position,
{
    lemma_skip_whitespace(scan);
    let here = scan.skip_whitespace();
    lemma_run_length(here.characters, here.position, letters());
    lemma_run_length(here.characters, here.position, number_characters());
    lemma_scan_string_advances(here.characters, here.position, Seq::empty());
    if here.current() == '"' {
        lemma_scan_string_advances(here.characters, here.position + 1, seq!['"']);
    }
}

/// What reads no literal as a binary64 value.
pub open spec fn no_floats() -> spec_fn(Seq<char>) -> Option<u64> {
    |literal: Seq<char>| None::<u64>
}

/// A token that does not ask the decoder is the same whatever the decoder
/// reads.
pub proof fn lemma_without_decoder(
    scan: Scan,
    first: spec_fn(Seq<char>) -> Option<u64>,
    second: spec_fn(Seq<char>) -> Option<u64>,
)
    requires
        !scan.asks_decoder(),
    ensures
        scan.next_token(first) == scan.next_token(second),
{
}

/// Where no token to the end of the text asks the decoder, the next token
/// is the same whatever the decoder reads, and none asks behind it.
pub proof fn lemma_float_free_next(scan: Scan, floats: spec_fn(Seq<char>) -> Option<u64>)
    requires
        scan.float_free(),
    ensures
        !scan.asks_decoder(),
        scan.next_token(floats) == scan.next_token(no_floats()),
        scan.next_token(floats).1.float_free(),
{
    lemma_without_decoder(scan, floats, no_floats());
    let (token, next) = scan.next_token(no_floats());
    if token is None {
        lemma_end_is_permanent(scan, no_floats());
        assert(next.skip_whitespace() == next);
        assert(next.float_free());
    }
}

/// A token is where the tokenizer found it: its location is the line and
/// column behind the whitespace, and the number of characters read for it.
/// Its text is what was read for it, but for a string that failed, whose
/// text has the escapes resolved.
pub proof fn lemma_token_extent(scan: Scan, floats: spec_fn(Seq<char>) -> Option<u64>)
    requires
        scan.within(),
    ensures
        scan.next_token(floats).0 matches Some(token) ==> {
            let here = scan.skip_whitespace();
            let next = scan.next_token(floats).1;
            &&& token.location == located(here.line, here.column, next.position - here.position)
            &&& next.line == here.line
            &&& next.column == here.column + (next.position - here.position)
            &&& !(token.kind is Invalid && here.current() == '"') ==> token.raw
                == scan.characters.subrange(here.position, next.position)
        },
{
    lemma_skip_whitespace(scan);
    let here = scan.skip_whitespace();
    lemma_run_length(here.characters, here.position, letters());
    lemma_run_length(here.characters, here.position, number_characters());
}

/// Where the text has ended, it has ended for good: the tokenizer stays
/// where it is and finds no token again.
pub proof fn lemma_end_is_permanent(scan: Scan, floats: spec_fn(Seq<char>) -> Option<u64>)
    ensures
        scan.next_token(floats).0 is None ==> scan.next_token(floats).1.next_token(floats)
            == scan.next_token(floats),
{
}

/// Reading a token leaves less to read.
pub proof fn lemma_token_consumes(scan: Scan, floats: spec_fn(Seq<char>) -> Option<u64>)
    ensures
        scan.next_token(floats).0 is Some ==> scan.next_token(floats).1.remaining()
            < scan.remaining(),
{
    if scan.within() {
        lemma_next_token_advances(scan, floats);
    }
}

} // verus!
